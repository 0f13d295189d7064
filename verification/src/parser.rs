//! The DIMACS front end: renumbering DIMACS variables to solver atoms and
//! reading DIMACS text.
use vstd::prelude::*;
use std::collections::HashMap;
use crate::primitives::Atom;
use crate::sat::SatFormula;
use crate::structures::FormulaConjunctiveBasic;
use crate::text::{
    chars_of, char_vec_views, newline_sep, parse_i32, parse_i32_spec, split_at_seps, split_words,
    strip_cr, string_from_chars, text_lines, words, lemma_split_nonempty,
};

verus! {

/// The DIMACS variable of literal `l`: its absolute value.
pub open spec fn lit_var(l: i32) -> i32 {
    if l < 0 {
        (-l) as i32
    } else {
        l
    }
}

/// The clauses as sequences of literals.
pub open spec fn clause_views(cls: Seq<Vec<i32>>) -> Seq<Seq<i32>> {
    cls.map_values(|c: Vec<i32>| c@)
}

/// Every literal of every clause, clause after clause.
pub open spec fn all_literals(cls: Seq<Seq<i32>>) -> Seq<i32> {
    cls.flatten()
}

/// The solver numbering of the DIMACS variables of `s`: the variables are
/// numbered `1, 2, ...` in the order of their first occurrence.
pub open spec fn numbering(s: Seq<i32>) -> Map<i32, nat>
    decreases s.len(),
{
    if s.len() == 0 {
        Map::empty()
    } else {
        let m = numbering(s.drop_last());
        let k = lit_var(s.last());
        if m.contains_key(k) {
            m
        } else {
            m.insert(k, m.len() + 1)
        }
    }
}

/// No literal is zero, and every literal has an absolute value in `i32`.
pub open spec fn literals_valid(cls: Seq<Seq<i32>>) -> bool {
    forall|i: int, j: int|
        0 <= i < cls.len() && 0 <= j < cls[i].len() ==> #[trigger] cls[i][j] != 0 && cls[i][j]
            != i32::MIN
}

/// No literal of `s` is zero or `i32::MIN`.
pub open spec fn seq_literals_valid(s: Seq<i32>) -> bool {
    forall|idx: int| 0 <= idx < s.len() ==> #[trigger] s[idx] != 0 && s[idx] != i32::MIN
}

/// Facts about the numbering: a finite map from exactly the variables of
/// `s`, onto `1..=len`, one to one.
pub proof fn lemma_numbering(s: Seq<i32>)
    ensures
        numbering(s).dom().finite(),
        forall|k: i32|
            numbering(s).contains_key(k) <==> exists|idx: int|
                0 <= idx < s.len() && #[trigger] lit_var(s[idx]) == k,
        forall|k: i32|
            #[trigger] numbering(s).contains_key(k) ==> 1 <= numbering(s)[k] <= numbering(
                s,
            ).len(),
        forall|k1: i32, k2: i32|
            #[trigger] numbering(s).contains_key(k1) && #[trigger] numbering(s).contains_key(k2)
                && numbering(s)[k1] == numbering(s)[k2] ==> k1 == k2,
    decreases s.len(),
{
    if s.len() > 0 {
        let p = s.drop_last();
        lemma_numbering(p);
        let m = numbering(p);
        let k = lit_var(s.last());
        assert forall|k2: i32|
            numbering(s).contains_key(k2) <==> exists|idx: int|
                0 <= idx < s.len() && #[trigger] lit_var(s[idx]) == k2 by {
            if numbering(s).contains_key(k2) && k2 != k {
                assert(m.contains_key(k2));
                let idx = choose|idx: int| 0 <= idx < p.len() && #[trigger] lit_var(p[idx]) == k2;
                assert(lit_var(s[idx]) == k2);
            }
            if numbering(s).contains_key(k2) && k2 == k {
                assert(lit_var(s[s.len() - 1]) == k2);
            }
            if exists|idx: int| 0 <= idx < s.len() && #[trigger] lit_var(s[idx]) == k2 {
                let idx = choose|idx: int| 0 <= idx < s.len() && #[trigger] lit_var(s[idx]) == k2;
                if idx < s.len() - 1 {
                    assert(lit_var(p[idx]) == k2);
                }
            }
        }
        if !m.contains_key(k) {
            assert(m.insert(k, m.len() + 1).len() == m.len() + 1);
        }
    }
}

/// Every variable of every clause is numbered.
pub proof fn lemma_all_literals_cover(cls: Seq<Seq<i32>>)
    ensures
        forall|i: int, j: int|
            0 <= i < cls.len() && 0 <= j < cls[i].len() ==> numbering(
                all_literals(cls),
            ).contains_key(lit_var(#[trigger] cls[i][j])),
{
    lemma_numbering(all_literals(cls));
    assert forall|i: int, j: int| 0 <= i < cls.len() && 0 <= j < cls[i].len() implies numbering(
        all_literals(cls),
    ).contains_key(lit_var(#[trigger] cls[i][j])) by {
        let cv = cls;
        vstd::seq_lib::lemma_flatten_concat(cv.take(i), cv.skip(i));
        assert(cv.take(i) + cv.skip(i) =~= cv);
        vstd::seq_lib::lemma_flatten_concat(seq![cv[i]], cv.skip(i + 1));
        assert(seq![cv[i]] + cv.skip(i + 1) =~= cv.skip(i));
        seq![cv[i]].lemma_flatten_singleton();
        let idx = cv.take(i).flatten().len() + j;
        assert(all_literals(cls)[idx] == cls[i][j]);
    }
}

/// A numbering of variables of values in `i32` has at most `i32::MAX` entries.
pub proof fn lemma_numbering_len(s: Seq<i32>)
    requires
        seq_literals_valid(s),
    ensures
        numbering(s).len() <= i32::MAX,
{
    lemma_numbering(s);
    let d = numbering(s).dom();
    let f = |k: i32| k as int;
    let y = d.map(f);
    assert(vstd::relations::injective_on(f, d));
    vstd::set_lib::lemma_map_size(d, y, f);
    vstd::set_lib::lemma_int_range(1, i32::MAX + 1);
    assert forall|v: int| y.contains(v) implies vstd::set_lib::set_int_range(1, i32::MAX + 1).contains(v) by {
        let k = choose|k: i32| d.contains(k) && f(k) == v;
        let idx = choose|idx: int| 0 <= idx < s.len() && #[trigger] lit_var(s[idx]) == k;
        assert(s[idx] != 0 && s[idx] != i32::MIN);
    }
    vstd::set_lib::lemma_len_subset(y, vstd::set_lib::set_int_range(1, i32::MAX + 1));
}

/// The map `hm` from variables to atoms agrees with the numbering `m`.
pub open spec fn map_matches(hm: Map<i32, Atom>, m: Map<i32, nat>) -> bool {
    &&& hm.dom() == m.dom()
    &&& forall|k: i32| #[trigger] m.contains_key(k) ==> hm[k]@ == m[k]
}

/// A CNF formula in DIMACS numbering, its renumbered copy for the solver
/// and the renumbering.
#[derive(Debug)]
pub struct FormulaTranslator {
    /// The solver atom of each DIMACS variable.
    pub dimacs_id_to_sw_id: HashMap<i32, Atom>,
    /// The renumbered formula.
    pub cnf: FormulaConjunctiveBasic,
}

impl FormulaTranslator {
    /// `self` is the translation of the DIMACS clauses `cls`: variables are
    /// numbered in order of first occurrence, literal `l` becomes the atom
    /// of `|l|`, required true exactly when `l > 0`.
    pub open spec fn is_translation_of(&self, cls: Seq<Seq<i32>>) -> bool {
        let m = numbering(all_literals(cls));
        &&& self.dimacs_id_to_sw_id@.dom() == m.dom()
        &&& forall|k: i32| #[trigger] m.contains_key(k) ==> self.dimacs_id_to_sw_id@[k]@ == m[k]
        &&& self.cnf.wf()
        &&& self.cnf.clauses@.len() == cls.len()
        &&& forall|i: int|
            0 <= i < cls.len() ==> (#[trigger] self.cnf.clauses@[i]).atoms@.len() == cls[i].len()
        &&& forall|i: int, j: int|
            0 <= i < cls.len() && 0 <= j < cls[i].len() ==> {
                &&& (#[trigger] self.cnf.clauses@[i].atoms@[j])@ == m[lit_var(cls[i][j])]
                &&& self.cnf.clauses@[i].truthiness@[j] == (cls[i][j] > 0)
            }
    }

    /// Given clauses such as `[[526, 334], [-334, 3, 74]]`, gives back the
    /// normalised formula `[[1, 2], [-2, 3, 4]]` and the numbering
    /// `{526: 1, 334: 2, 3: 3, 74: 4}`.
    #[verifier::spinoff_prover]
    pub fn new(clause_iterator: Vec<Vec<i32>>) -> (r: Self)
        requires
            literals_valid(clause_views(clause_iterator@)),
        ensures
            r.is_translation_of(clause_views(clause_iterator@)),
    {
        let ghost cls = clause_views(clause_iterator@);
        let ghost flat = all_literals(cls);
        let mut dimacs_id_to_sw_id: HashMap<i32, Atom> = HashMap::new();
        let mut curr_sw_id = Atom::one();
        let n = clause_iterator.len();
        proof {
            assert(cls.take(0).flatten() =~= Seq::<i32>::empty());
        }
        for i in 0..n
            invariant
                n == cls.len(),
                cls == clause_views(clause_iterator@),
                flat == all_literals(cls),
                literals_valid(cls),
                map_matches(
                    dimacs_id_to_sw_id@,
                    numbering(cls.take(i as int).flatten()),
                ),
                curr_sw_id@ == numbering(cls.take(i as int).flatten()).len() + 1,
                seq_literals_valid(cls.take(i as int).flatten()),
        {
            let disjunction: &Vec<i32> = &clause_iterator[i];
            let m_len = disjunction.len();
            let ghost before = cls.take(i as int).flatten();
            proof {
                assert(before + cls[i as int].take(0) =~= before);
            }
            for j in 0..m_len
                invariant
                    n == cls.len(),
                    cls == clause_views(clause_iterator@),
                    0 <= i < n,
                    disjunction@ == cls[i as int],
                    m_len == cls[i as int].len(),
                    literals_valid(cls),
                    before == cls.take(i as int).flatten(),
                    map_matches(dimacs_id_to_sw_id@, numbering(before + cls[i as int].take(j as int))),
                    curr_sw_id@ == numbering(before + cls[i as int].take(j as int)).len() + 1,
                    seq_literals_valid(before),
            {
                let ghost p = before + cls[i as int].take(j as int);
                let ghost p2 = before + cls[i as int].take(j + 1);
                let k_literal = disjunction[j];
                assert(k_literal != 0 && k_literal != i32::MIN) by {
                    assert(cls[i as int][j as int] == k_literal);
                }
                let k_atom = if k_literal < 0 {
                    -k_literal
                } else {
                    k_literal
                };
                proof {
                    assert(p2 =~= p.push(k_literal));
                    assert(p2.drop_last() =~= p);
                    lemma_numbering(p);
                    assert forall|idx: int| 0 <= idx < p2.len() implies #[trigger] p2[idx] != 0
                        && p2[idx] != i32::MIN by {
                        if idx >= before.len() {
                            assert(p2[idx] == cls[i as int][idx - before.len()]);
                        }
                    }
                    lemma_numbering_len(p2);
                    lemma_numbering(p2);
                }
                if !dimacs_id_to_sw_id.contains_key(&k_atom) {
                    dimacs_id_to_sw_id.insert(k_atom, curr_sw_id);
                    let ghost prev_id = curr_sw_id;
                    curr_sw_id = curr_sw_id + Atom::one();
                    proof {
                        Atom::lemma_spec_new((prev_id@ + 1) as u32);
                    }
                }
                proof {
                    assert(dimacs_id_to_sw_id@.dom() =~= numbering(p2).dom());
                    assert(map_matches(dimacs_id_to_sw_id@, numbering(p2)));
                    assert(lit_var(p2.last()) == k_atom);
                    if !numbering(p).contains_key(k_atom) {
                        assert(numbering(p2) == numbering(p).insert(k_atom, numbering(p).len() + 1));
                        assert(numbering(p2).len() == numbering(p).len() + 1);
                    } else {
                        assert(numbering(p2) == numbering(p));
                    }
                }
            }
            proof {
                assert(cls[i as int].take(m_len as int) =~= cls[i as int]);
                assert(cls.take(i + 1) =~= cls.take(i as int).push(
                    cls[i as int],
                ));
                cls.take(i as int).lemma_flatten_push(cls[i as int]);
                let nb = cls.take(i + 1).flatten();
                assert(nb =~= before + cls[i as int]);
                assert(nb =~= before + cls[i as int].take(m_len as int));
                assert forall|idx: int| 0 <= idx < nb.len() implies #[trigger] nb[idx] != 0
                    && nb[idx] != i32::MIN by {
                    if idx >= before.len() {
                        assert(nb[idx] == cls[i as int][idx - before.len()]);
                    }
                }
            }
        }
        proof {
            assert(cls.take(n as int) =~= cls);
            assert(cls.take(n as int).flatten() == flat);
        }
        let ghost m = numbering(flat);
        proof {
            lemma_all_literals_cover(cls);
        }
        let mut clauses: Vec<Vec<(Atom, bool)>> = Vec::new();
        for i in 0..n
            invariant
                n == cls.len(),
                cls == clause_views(clause_iterator@),
                flat == all_literals(cls),
                m == numbering(flat),
                literals_valid(cls),
                dimacs_id_to_sw_id@.dom() == m.dom(),
                forall|k: i32| #[trigger] m.contains_key(k) ==> dimacs_id_to_sw_id@[k]@ == m[k],
                forall|i2: int, j2: int|
                    0 <= i2 < cls.len() && 0 <= j2 < cls[i2].len() ==> m.contains_key(
                        lit_var(#[trigger] cls[i2][j2]),
                    ),
                clauses@.len() == i,
                forall|i2: int| 0 <= i2 < i ==> (#[trigger] clauses@[i2])@.len() == cls[i2].len(),
                forall|i2: int, j2: int|
                    0 <= i2 < i && 0 <= j2 < cls[i2].len() ==> {
                        &&& (#[trigger] clauses@[i2]@[j2]).0@ == m[lit_var(cls[i2][j2])]
                        &&& clauses@[i2]@[j2].1 == (cls[i2][j2] > 0)
                    },
        {
            let disjunction: &Vec<i32> = &clause_iterator[i];
            let m_len = disjunction.len();
            let mut literals: Vec<(Atom, bool)> = Vec::new();
            for j in 0..m_len
                invariant
                    n == cls.len(),
                    cls == clause_views(clause_iterator@),
                    0 <= i < n,
                    disjunction@ == cls[i as int],
                    m_len == cls[i as int].len(),
                    literals_valid(cls),
                    m == numbering(flat),
                    dimacs_id_to_sw_id@.dom() == m.dom(),
                    forall|k: i32| #[trigger] m.contains_key(k) ==> dimacs_id_to_sw_id@[k]@ == m[k],
                    forall|i2: int, j2: int|
                        0 <= i2 < cls.len() && 0 <= j2 < cls[i2].len() ==> m.contains_key(
                            lit_var(#[trigger] cls[i2][j2]),
                        ),
                    literals@.len() == j,
                    forall|j2: int|
                        0 <= j2 < j ==> {
                            &&& (#[trigger] literals@[j2]).0@ == m[lit_var(cls[i as int][j2])]
                            &&& literals@[j2].1 == (cls[i as int][j2] > 0)
                        },
            {
                let k_literal = disjunction[j];
                assert(k_literal != 0 && k_literal != i32::MIN) by {
                    assert(cls[i as int][j as int] == k_literal);
                }
                let k_atom = if k_literal < 0 {
                    -k_literal
                } else {
                    k_literal
                };
                assert(m.contains_key(k_atom)) by {
                    assert(cls[i as int][j as int] == k_literal);
                }
                let v_atom = *dimacs_id_to_sw_id.get(&k_atom).unwrap();
                let polarity = k_literal > 0;
                literals.push((v_atom, polarity));
            }
            clauses.push(literals);
        }
        let cnf = FormulaConjunctiveBasic::new(clauses);
        let r = Self { dimacs_id_to_sw_id, cnf };
        proof {
            assert(r.cnf.literal_lists().len() == clauses@.len());
            assert(r.cnf.clauses@.len() == cls.len());
            assert forall|i: int| 0 <= i < cls.len() implies (#[trigger] r.cnf.clauses@[i]).atoms@.len()
                == cls[i].len() by {
                assert(r.cnf.literal_lists()[i] == clauses@[i]@);
                assert(r.cnf.clauses@[i].wf());
            }
            assert forall|i: int, j: int| 0 <= i < cls.len() && 0 <= j < cls[i].len() implies (
            #[trigger] r.cnf.clauses@[i].atoms@[j])@ == m[lit_var(cls[i][j])]
                && r.cnf.clauses@[i].truthiness@[j] == (cls[i][j] > 0) by {
                assert(r.cnf.literal_lists()[i] == clauses@[i]@);
                assert(r.cnf.clauses@[i].wf());
                assert(r.cnf.clauses@[i].literals()[j] == clauses@[i]@[j]);
            }
        }
        proof {
            assert(r.dimacs_id_to_sw_id@.dom() == m.dom());
            assert(forall|k: i32| #[trigger] m.contains_key(k) ==> r.dimacs_id_to_sw_id@[k]@ == m[k]);
            assert(r.cnf.wf());
            assert(r.cnf.clauses@.len() == cls.len());
            assert(m == numbering(all_literals(cls)));
            assert(r.dimacs_id_to_sw_id@.dom() == numbering(all_literals(cls)).dom());
            assert(forall|i: int|
                0 <= i < cls.len() ==> (#[trigger] r.cnf.clauses@[i]).atoms@.len() == cls[i].len());
            assert(forall|i: int, j: int|
                0 <= i < cls.len() && 0 <= j < cls[i].len() ==> {
                    &&& (#[trigger] r.cnf.clauses@[i].atoms@[j])@ == m[lit_var(cls[i][j])]
                    &&& r.cnf.clauses@[i].truthiness@[j] == (cls[i][j] > 0)
                });
            assert(r.is_translation_of(cls));
        }
        r
    }
}

} // verus!

verus! {

/// The DIMACS literal `l` holds when its variable has the value `l > 0`.
pub open spec fn dimacs_lit_holds(sigma: spec_fn(i32) -> bool, l: i32) -> bool {
    sigma(lit_var(l)) == (l > 0)
}

/// Some literal of the DIMACS clause `c` holds.
pub open spec fn dimacs_clause_holds(sigma: spec_fn(i32) -> bool, c: Seq<i32>) -> bool {
    exists|j: int| 0 <= j < c.len() && #[trigger] dimacs_lit_holds(sigma, c[j])
}

/// The valuation `sigma` makes a literal of every clause hold.
pub open spec fn dimacs_models(sigma: spec_fn(i32) -> bool, cls: Seq<Seq<i32>>) -> bool {
    forall|i: int| 0 <= i < cls.len() ==> #[trigger] dimacs_clause_holds(sigma, cls[i])
}

/// Some valuation of the DIMACS variables makes a literal of every clause hold.
pub open spec fn dimacs_satisfiable(cls: Seq<Seq<i32>>) -> bool {
    exists|sigma: spec_fn(i32) -> bool| #[trigger] dimacs_models(sigma, cls)
}

/// Every entry of a flattened sequence of sequences comes from some inner
/// sequence.
pub proof fn lemma_flatten_index(cv: Seq<Seq<i32>>, idx: int)
    requires
        0 <= idx < cv.flatten().len(),
    ensures
        exists|i: int, j: int|
            0 <= i < cv.len() && 0 <= j < cv[i].len() && #[trigger] cv[i][j] == cv.flatten()[idx],
    decreases cv.len(),
{
    if cv.len() > 0 {
        if idx < cv[0].len() {
            assert(cv.flatten()[idx] == cv[0][idx]);
        } else {
            lemma_flatten_index(cv.drop_first(), idx - cv[0].len());
            let (i, j) = choose|i: int, j: int|
                0 <= i < cv.drop_first().len() && 0 <= j < cv.drop_first()[i].len()
                    && #[trigger] cv.drop_first()[i][j] == cv.drop_first().flatten()[idx
                    - cv[0].len()];
            assert(cv[i + 1][j] == cv.flatten()[idx]);
        }
    }
}

/// The solver atom that the numbering `m` gives to variable `k`.
pub open spec fn atom_of(m: Map<i32, nat>, k: i32) -> Atom {
    Atom::spec_new(m[k] as u32)
}

/// Every variable that the numbering covers occurs at some position of the
/// clauses.
proof fn lemma_numbered_occurs(cls: Seq<Seq<i32>>, k: i32)
    requires
        numbering(all_literals(cls)).contains_key(k),
    ensures
        exists|i: int, j: int|
            0 <= i < cls.len() && 0 <= j < cls[i].len() && lit_var(#[trigger] cls[i][j]) == k,
{
    lemma_numbering(all_literals(cls));
    let flat = all_literals(cls);
    let idx = choose|idx: int| 0 <= idx < flat.len() && #[trigger] lit_var(flat[idx]) == k;
    lemma_flatten_index(cls, idx);
    let (i, j) = choose|i: int, j: int|
        0 <= i < cls.len() && 0 <= j < cls[i].len()
            && #[trigger] cls[i][j] == flat[idx];
    assert(cls[i][j] == flat[idx]);
}

/// The translation of well-formed DIMACS clauses is a formula the decision
/// procedure accepts: its clauses are well formed and its atoms are
/// numbered `1..=n`.
pub proof fn lemma_translation_is_sat_ready(cls: Seq<Seq<i32>>, t: FormulaTranslator)
    requires
        literals_valid(cls),
        t.is_translation_of(cls),
    ensures
        t.cnf.wf(),
        crate::semantics::atoms_numbered_densely(t.cnf),
        crate::semantics::atom_set(t.cnf).len() == numbering(all_literals(cls)).len(),
{
    let m = numbering(all_literals(cls));
    let flat = all_literals(cls);
    lemma_numbering(flat);
    assert(seq_literals_valid(flat)) by {
        assert forall|idx: int| 0 <= idx < flat.len() implies #[trigger] flat[idx] != 0 && flat[idx]
            != i32::MIN by {
            lemma_flatten_index(cls, idx);
            let (i, j) = choose|i: int, j: int|
                0 <= i < cls.len() && 0 <= j < cls[i].len()
                    && #[trigger] cls[i][j] == flat[idx];
            assert(cls[i][j] == flat[idx]);
        }
    }
    lemma_numbering_len(flat);
    let d = m.dom();
    let f = |k: i32| atom_of(m, k);
    let aset = crate::semantics::atom_set(t.cnf);
    assert forall|k1: i32, k2: i32| d.contains(k1) && d.contains(k2) && #[trigger] f(k1) == #[trigger] f(
        k2,
    ) implies k1 == k2 by {
        Atom::lemma_spec_new(m[k1] as u32);
        Atom::lemma_spec_new(m[k2] as u32);
    }
    assert(vstd::relations::injective_on(f, d));
    assert forall|a: Atom| aset.contains(a) <==> d.map(f).contains(a) by {
        if aset.contains(a) {
            let (i, j) = choose|i: int, j: int|
                0 <= i < t.cnf.clauses@.len() && 0 <= j < t.cnf.clauses@[i].atoms@.len()
                    && #[trigger] t.cnf.clauses@[i].atoms@[j] == a;
            let k = lit_var(cls[i][j]);
            lemma_all_literals_cover(cls);
            assert(m.contains_key(k));
            Atom::lemma_spec_new(m[k] as u32);
            a.lemma_view_injective(f(k));
            assert(d.map(f).contains(a));
        }
        if d.map(f).contains(a) {
            let k = choose|k: i32| d.contains(k) && f(k) == a;
            lemma_numbered_occurs(cls, k);
            let (i, j) = choose|i: int, j: int|
                0 <= i < cls.len() && 0 <= j < cls[i].len() && lit_var(#[trigger] cls[i][j]) == k;
            let b = t.cnf.clauses@[i].atoms@[j];
            Atom::lemma_spec_new(m[k] as u32);
            b.lemma_view_injective(a);
            assert(crate::semantics::occurs(t.cnf, a));
        }
    }
    assert(aset =~= d.map(f));
    vstd::set_lib::lemma_map_size(d, aset, f);
    assert forall|a: Atom| #[trigger] crate::semantics::occurs(t.cnf, a) implies 1 <= a@
        <= aset.len() by {
        let (i, j) = choose|i: int, j: int|
            0 <= i < t.cnf.clauses@.len() && 0 <= j < t.cnf.clauses@[i].atoms@.len()
                && #[trigger] t.cnf.clauses@[i].atoms@[j] == a;
        lemma_all_literals_cover(cls);
        assert(m.contains_key(lit_var(cls[i][j])));
    }
}

/// Translating renames variables one to one, so the translated formula has
/// a model exactly when the DIMACS clauses have one.
pub proof fn lemma_translation_equisatisfiable(cls: Seq<Seq<i32>>, t: FormulaTranslator)
    requires
        literals_valid(cls),
        t.is_translation_of(cls),
    ensures
        crate::semantics::satisfiable(t.cnf) <==> dimacs_satisfiable(cls),
{
    let m = numbering(all_literals(cls));
    lemma_numbering(all_literals(cls));
    lemma_all_literals_cover(cls);
    if crate::semantics::satisfiable(t.cnf) {
        let s = choose|s: Seq<bool>| #[trigger] crate::semantics::models(s, t.cnf);
        let sigma = |k: i32|
            if m.contains_key(k) && 1 <= m[k] <= s.len() {
                s[m[k] - 1]
            } else {
                false
            };
        assert forall|i: int| 0 <= i < cls.len() implies #[trigger] dimacs_clause_holds(
            sigma,
            cls[i],
        ) by {
            let c = t.cnf.clauses@[i];
            assert(crate::semantics::clause_met(c, crate::semantics::total(s)));
            let j = choose|j: int|
                0 <= j < c.atoms@.len() && #[trigger] crate::semantics::lit_holds(
                    crate::semantics::total(s),
                    c.atoms@[j],
                    c.truthiness@[j],
                );
            assert(t.cnf.clauses@[i].atoms@[j]@ == m[lit_var(cls[i][j])]);
            assert(dimacs_lit_holds(sigma, cls[i][j]));
        }
        assert(dimacs_models(sigma, cls));
        assert(dimacs_satisfiable(cls));
    }
    if dimacs_satisfiable(cls) {
        let sigma = choose|sigma: spec_fn(i32) -> bool| #[trigger] dimacs_models(sigma, cls);
        let inv = |v: nat| choose|k: i32| m.contains_key(k) && m[k] == v;
        let s = Seq::new(m.len(), |p: int| sigma(inv((p + 1) as nat)));
        assert forall|i: int| 0 <= i < t.cnf.clauses@.len() implies #[trigger] crate::semantics::clause_met(
            t.cnf.clauses@[i],
            crate::semantics::total(s),
        ) by {
            assert(dimacs_clause_holds(sigma, cls[i]));
            let j = choose|j: int| 0 <= j < cls[i].len() && #[trigger] dimacs_lit_holds(sigma, cls[i][j]);
            let k = lit_var(cls[i][j]);
            assert(m.contains_key(k));
            let k2 = inv(m[k]);
            assert(m.contains_key(k2) && m[k2] == m[k]);
            assert(k2 == k);
            let c = t.cnf.clauses@[i];
            assert(c.atoms@[j]@ == m[k]);
            assert(crate::semantics::lit_holds(crate::semantics::total(s), c.atoms@[j], c.truthiness@[j]));
        }
        assert(crate::semantics::models(s, t.cnf));
    }
}

} // verus!

verus! {

/// What reading DIMACS text has built so far: the literals of the open
/// clause, and the clauses closed by a `0`.
pub type DimacsState = (Seq<i32>, Seq<Seq<i32>>);

/// One token: a nonzero number extends the open clause, `0` closes it, and
/// a token that is no number is passed over.
pub open spec fn step_token(st: DimacsState, tok: Seq<char>) -> DimacsState {
    match parse_i32_spec(tok) {
        Some(v) => if v != 0 {
            (st.0.push(v), st.1)
        } else {
            (Seq::empty(), st.1.push(st.0))
        },
        None => st,
    }
}

/// The tokens `toks`, in order.
pub open spec fn step_tokens(st: DimacsState, toks: Seq<Seq<char>>) -> DimacsState
    decreases toks.len(),
{
    if toks.len() == 0 {
        st
    } else {
        step_token(step_tokens(st, toks.drop_last()), toks.last())
    }
}

/// A line whose first word is `c` (a comment) or `p` (the problem line).
pub open spec fn line_skipped(toks: Seq<Seq<char>>) -> bool {
    toks.len() > 0 && (toks[0] == seq!['c'] || toks[0] == seq!['p'])
}

/// One line: comment and problem lines are passed over, the words of any
/// other line are read as tokens.
pub open spec fn step_line(st: DimacsState, line: Seq<char>) -> DimacsState {
    if line_skipped(words(line)) {
        st
    } else {
        step_tokens(st, words(line))
    }
}

/// The lines `lines`, in order.
pub open spec fn step_lines(st: DimacsState, lines: Seq<Seq<char>>) -> DimacsState
    decreases lines.len(),
{
    if lines.len() == 0 {
        st
    } else {
        step_line(step_lines(st, lines.drop_last()), lines.last())
    }
}

/// The clauses of the DIMACS text `text`: every clause that a `0` closes,
/// in order; literals after the last `0` belong to no clause.
pub open spec fn dimacs_clauses(text: Seq<char>) -> Seq<Seq<i32>> {
    step_lines((Seq::empty(), Seq::empty()), text_lines(text)).1
}

// -------------------------------
// What reading DIMACS text gives, in terms of its numbers
// -------------------------------

/// The position of the first `0` in `s`, or its length when there is none.
pub open spec fn zero_index(s: Seq<i32>) -> nat
    decreases s.len(),
{
    if s.len() == 0 {
        0
    } else if s[0] == 0 {
        0
    } else {
        1 + zero_index(s.drop_first())
    }
}

/// The clauses that the zeros of `s` close: the numbers before the first
/// zero, then those between the first and the second, and so on. Numbers
/// after the last zero belong to no clause.
pub open spec fn closed_clauses(s: Seq<i32>) -> Seq<Seq<i32>>
    decreases s.len(),
{
    let z = zero_index(s);
    if z >= s.len() {
        Seq::<Seq<i32>>::empty()
    } else {
        proof {
            lemma_zero_index(s);
        }
        seq![s.take(z as int)] + closed_clauses(s.skip(z + 1int))
    }
}

/// The numbers of `s` after its last zero: the clause still open.
pub open spec fn open_tail(s: Seq<i32>) -> Seq<i32>
    decreases s.len(),
{
    let z = zero_index(s);
    if z >= s.len() {
        s
    } else {
        proof {
            lemma_zero_index(s);
        }
        open_tail(s.skip(z + 1int))
    }
}

/// The number of zeros in `s`.
pub open spec fn zero_count(s: Seq<i32>) -> nat
    decreases s.len(),
{
    if s.len() == 0 {
        0
    } else {
        zero_count(s.drop_last()) + if s.last() == 0 {
            1nat
        } else {
            0nat
        }
    }
}

/// The numbers among the words `toks`, in order; a word that is no number
/// is left out.
pub open spec fn token_numbers(toks: Seq<Seq<char>>) -> Seq<i32>
    decreases toks.len(),
{
    if toks.len() == 0 {
        Seq::<i32>::empty()
    } else {
        token_numbers(toks.drop_last()) + match parse_i32_spec(toks.last()) {
            Some(v) => seq![v],
            None => Seq::<i32>::empty(),
        }
    }
}

/// The numbers on the lines `lines` that are neither comment nor problem
/// lines, line after line.
pub open spec fn line_numbers(lines: Seq<Seq<char>>) -> Seq<i32>
    decreases lines.len(),
{
    if lines.len() == 0 {
        Seq::<i32>::empty()
    } else {
        line_numbers(lines.drop_last()) + if line_skipped(words(lines.last())) {
            Seq::<i32>::empty()
        } else {
            token_numbers(words(lines.last()))
        }
    }
}

/// The numbers of DIMACS text, in the order they are written, comment and
/// problem lines left out.
pub open spec fn dimacs_numbers(text: Seq<char>) -> Seq<i32> {
    line_numbers(text_lines(text))
}

/// `s` holds no zero.
pub open spec fn zero_free(s: Seq<i32>) -> bool {
    forall|k: int| 0 <= k < s.len() ==> s[k] != 0
}

/// The first zero is a zero and none comes before it.
pub proof fn lemma_zero_index(s: Seq<i32>)
    ensures
        zero_index(s) <= s.len(),
        zero_index(s) < s.len() ==> s[zero_index(s) as int] == 0,
        forall|k: int| 0 <= k < zero_index(s) ==> s[k] != 0,
    decreases s.len(),
{
    if s.len() > 0 && s[0] != 0 {
        lemma_zero_index(s.drop_first());
        assert forall|k: int| 0 <= k < zero_index(s) implies s[k] != 0 by {
            if k > 0 {
                assert(s[k] == s.drop_first()[k - 1]);
            }
        }
    }
}

proof fn lemma_zero_free(s: Seq<i32>)
    requires
        zero_free(s),
    ensures
        zero_index(s) == s.len(),
        closed_clauses(s) == Seq::<Seq<i32>>::empty(),
        open_tail(s) == s,
{
    lemma_zero_index(s);
}

proof fn lemma_open_tail_zero_free(s: Seq<i32>)
    ensures
        zero_free(open_tail(s)),
    decreases s.len(),
{
    lemma_zero_index(s);
    let z = zero_index(s);
    if z < s.len() {
        lemma_open_tail_zero_free(s.skip(z + 1int));
    }
}

/// One more number: a zero closes the open clause, any other number joins it.
proof fn lemma_closed_push(s: Seq<i32>, x: i32)
    ensures
        closed_clauses(s.push(x)) == if x == 0 {
            closed_clauses(s).push(open_tail(s))
        } else {
            closed_clauses(s)
        },
        open_tail(s.push(x)) == if x == 0 {
            Seq::<i32>::empty()
        } else {
            open_tail(s).push(x)
        },
    decreases s.len(),
{
    lemma_zero_index(s);
    lemma_zero_index(s.push(x));
    let z = zero_index(s);
    let sx = s.push(x);
    if z < s.len() {
        assert(zero_index(sx) == z) by {
            if zero_index(sx) < z {
                assert(sx[zero_index(sx) as int] == s[zero_index(sx) as int]);
            }
            if zero_index(sx) > z {
                assert(sx[z as int] == s[z as int]);
            }
        }
        assert(sx.take(z as int) =~= s.take(z as int));
        assert(sx.skip(z + 1int) =~= s.skip(z + 1int).push(x));
        lemma_closed_push(s.skip(z + 1int), x);
        assert(closed_clauses(sx) == seq![s.take(z as int)] + closed_clauses(s.skip(z + 1int).push(x)));
        if x == 0 {
            assert(closed_clauses(sx) =~= closed_clauses(s).push(open_tail(s)));
        } else {
            assert(closed_clauses(sx) =~= closed_clauses(s));
        }
    } else {
        // no zero in `s`
        assert(zero_free(s));
        lemma_zero_free(s);
        if x == 0 {
            assert(zero_index(sx) == s.len()) by {
                if zero_index(sx) < s.len() {
                    assert(sx[zero_index(sx) as int] == s[zero_index(sx) as int]);
                }
                if zero_index(sx) > s.len() {
                    assert(sx[s.len() as int] == 0);
                }
            }
            assert(sx.take(s.len() as int) =~= s);
            assert(sx.skip(s.len() + 1int) =~= Seq::<i32>::empty());
            lemma_zero_free(Seq::<i32>::empty());
            assert(closed_clauses(sx) =~= seq![s]);
            assert(closed_clauses(s).push(open_tail(s)) =~= seq![s]);
        } else {
            assert(zero_free(sx)) by {
                assert forall|k: int| 0 <= k < sx.len() implies sx[k] != 0 by {
                    if k < s.len() {
                        assert(sx[k] == s[k]);
                    }
                }
            }
            lemma_zero_free(sx);
        }
    }
}

/// Reading `s` and then `t` closes the clauses of `s`, then those of the
/// open rest of `s` followed by `t`.
proof fn lemma_closed_concat(s: Seq<i32>, t: Seq<i32>)
    ensures
        closed_clauses(s + t) == closed_clauses(s) + closed_clauses(open_tail(s) + t),
        open_tail(s + t) == open_tail(open_tail(s) + t),
    decreases t.len(),
{
    if t.len() == 0 {
        assert(s + t =~= s);
        assert(open_tail(s) + t =~= open_tail(s));
        lemma_open_tail_zero_free(s);
        lemma_zero_free(open_tail(s));
        assert(closed_clauses(s) + Seq::<Seq<i32>>::empty() =~= closed_clauses(s));
    } else {
        let t0 = t.drop_last();
        let x = t.last();
        lemma_closed_concat(s, t0);
        assert(s + t =~= (s + t0).push(x));
        assert(open_tail(s) + t =~= (open_tail(s) + t0).push(x));
        lemma_closed_push(s + t0, x);
        lemma_closed_push(open_tail(s) + t0, x);
        if x == 0 {
            assert(closed_clauses(s + t) =~= closed_clauses(s) + closed_clauses(open_tail(s) + t));
        }
    }
}

/// Reading the words `toks` from a state whose open clause holds no zero
/// gives what the zeros among their numbers close.
proof fn lemma_step_tokens(st: DimacsState, toks: Seq<Seq<char>>)
    requires
        zero_free(st.0),
    ensures
        step_tokens(st, toks) == (
            open_tail(st.0 + token_numbers(toks)),
            st.1 + closed_clauses(st.0 + token_numbers(toks)),
        ),
    decreases toks.len(),
{
    if toks.len() == 0 {
        assert(st.0 + token_numbers(toks) =~= st.0);
        lemma_zero_free(st.0);
        assert(st.1 + Seq::<Seq<i32>>::empty() =~= st.1);
    } else {
        let t0 = toks.drop_last();
        lemma_step_tokens(st, t0);
        let s0 = st.0 + token_numbers(t0);
        match parse_i32_spec(toks.last()) {
            Some(v) => {
                assert(st.0 + token_numbers(toks) =~= s0.push(v));
                lemma_closed_push(s0, v);
                if v == 0 {
                    assert(st.1 + closed_clauses(s0.push(v)) =~= (st.1 + closed_clauses(s0)).push(
                        open_tail(s0),
                    ));
                }
            },
            None => {
                assert(st.0 + token_numbers(toks) =~= s0);
            },
        }
    }
}

/// Reading the lines `lines` from a state whose open clause holds no zero
/// gives what the zeros among the numbers of their read lines close.
proof fn lemma_step_lines(st: DimacsState, lines: Seq<Seq<char>>)
    requires
        zero_free(st.0),
    ensures
        step_lines(st, lines) == (
            open_tail(st.0 + line_numbers(lines)),
            st.1 + closed_clauses(st.0 + line_numbers(lines)),
        ),
    decreases lines.len(),
{
    if lines.len() == 0 {
        assert(st.0 + line_numbers(lines) =~= st.0);
        lemma_zero_free(st.0);
        assert(st.1 + Seq::<Seq<i32>>::empty() =~= st.1);
    } else {
        let l0 = lines.drop_last();
        lemma_step_lines(st, l0);
        let s0 = st.0 + line_numbers(l0);
        let w = words(lines.last());
        if line_skipped(w) {
            assert(st.0 + line_numbers(lines) =~= s0);
        } else {
            let n = token_numbers(w);
            lemma_open_tail_zero_free(s0);
            lemma_step_tokens((open_tail(s0), st.1 + closed_clauses(s0)), w);
            lemma_closed_concat(s0, n);
            assert(st.0 + line_numbers(lines) =~= s0 + n);
            assert(st.1 + closed_clauses(s0) + closed_clauses(open_tail(s0) + n) =~= st.1 + (
            closed_clauses(s0) + closed_clauses(open_tail(s0) + n)));
        }
    }
}

/// Each zero closes one clause.
proof fn lemma_closed_count(s: Seq<i32>)
    ensures
        closed_clauses(s).len() == zero_count(s),
    decreases s.len(),
{
    if s.len() > 0 {
        lemma_closed_count(s.drop_last());
        assert(s.drop_last().push(s.last()) =~= s);
        lemma_closed_push(s.drop_last(), s.last());
    } else {
        lemma_zero_index(s);
    }
}

/// Reading DIMACS text: the numbers on its lines that are neither comment
/// nor problem lines, taken in order, are cut at every zero; each zero
/// closes the clause of the numbers since the zero before it, wherever the
/// zeros stand on their lines, so there are as many clauses as zeros, and
/// numbers after the last zero belong to no clause.
pub proof fn lemma_dimacs_clauses_are_cut_at_zeros(text: Seq<char>)
    ensures
        dimacs_clauses(text) == closed_clauses(dimacs_numbers(text)),
        dimacs_clauses(text).len() == zero_count(dimacs_numbers(text)),
        forall|i: int|
            0 <= i < dimacs_clauses(text).len() ==> zero_free(#[trigger] dimacs_clauses(text)[i]),
{
    let st: DimacsState = (Seq::empty(), Seq::empty());
    lemma_step_lines(st, text_lines(text));
    assert(Seq::<i32>::empty() + dimacs_numbers(text) =~= dimacs_numbers(text));
    assert(Seq::<Seq<i32>>::empty() + closed_clauses(dimacs_numbers(text)) =~= closed_clauses(
        dimacs_numbers(text),
    ));
    lemma_closed_count(dimacs_numbers(text));
    lemma_closed_zero_free(dimacs_numbers(text));
}

proof fn lemma_closed_zero_free(s: Seq<i32>)
    ensures
        forall|i: int| 0 <= i < closed_clauses(s).len() ==> zero_free(#[trigger] closed_clauses(s)[i]),
    decreases s.len(),
{
    lemma_zero_index(s);
    let z = zero_index(s);
    if z < s.len() {
        lemma_closed_zero_free(s.skip(z + 1int));
        assert forall|i: int| 0 <= i < closed_clauses(s).len() implies zero_free(
            #[trigger] closed_clauses(s)[i],
        ) by {
            if i == 0 {
                assert(closed_clauses(s)[0] == s.take(z as int));
            } else {
                assert(closed_clauses(s)[i] == closed_clauses(s.skip(z + 1int))[i - 1]);
            }
        }
    }
}

/// Reads the words of one line into the open clause and the closed clauses.
fn read_line(line: &[char], stack: &mut Vec<i32>, conjunctions: &mut Vec<Vec<i32>>)
    ensures
        (final(stack)@, clause_views(final(conjunctions)@)) == step_line(
            (old(stack)@, clause_views(old(conjunctions)@)),
            line@,
        ),
{
    let toks = split_words(line);
    let ghost tv = char_vec_views(toks@);
    if toks.len() > 0 {
        let first = &toks[0];
        assert(first@ == tv[0]);
        if first.len() == 1 && (first[0] == 'c' || first[0] == 'p') {
            proof {
                if first[0] == 'c' {
                    assert(tv[0] =~= seq!['c']);
                } else {
                    assert(tv[0] =~= seq!['p']);
                }
            }
            return;
        }
        proof {
            if tv[0] == seq!['c'] || tv[0] == seq!['p'] {
                assert(tv[0].len() == 1);
                assert(first@[0] == tv[0][0]);
            }
        }
    }
    let n = toks.len();
    let ghost st0 = (stack@, clause_views(conjunctions@));
    proof {
        assert(tv.take(0) =~= Seq::<Seq<char>>::empty());
    }
    for k in 0..n
        invariant
            n == toks@.len(),
            tv == char_vec_views(toks@),
            (stack@, clause_views(conjunctions@)) == step_tokens(st0, tv.take(k as int)),
    {
        let tok = &toks[k];
        let s = string_from_chars(tok.as_slice());
        let parsed = parse_i32(s.as_str());
        proof {
            assert(tv.take(k + 1).drop_last() =~= tv.take(k as int));
            assert(tv.take(k + 1).last() == tok@);
        }
        match parsed {
            // a literal of the open clause
            Some(value) => {
                if value != 0 {
                    stack.push(value);
                } else {
                    // `0` closes the clause
                    let mut closed: Vec<i32> = Vec::new();
                    std::mem::swap(&mut closed, stack);
                    let ghost before = conjunctions@;
                    conjunctions.push(closed);
                    proof {
                        assert(clause_views(conjunctions@) =~= clause_views(before).push(closed@));
                    }
                }
            },
            // a token that is no number is passed over
            None => {},
        }
    }
    proof {
        assert(tv.take(n as int) =~= tv);
    }
}

/// The clauses of DIMACS text, in DIMACS numbering.
pub fn read_dimacs_clauses(content: &str) -> (r: Vec<Vec<i32>>)
    ensures
        clause_views(r@) == dimacs_clauses(content@),
        clause_views(r@) == closed_clauses(dimacs_numbers(content@)),
        r@.len() == zero_count(dimacs_numbers(content@)),
{
    let cs = chars_of(content);
    let mut disjunction_stack: Vec<i32> = Vec::new();
    let mut conjunctions: Vec<Vec<i32>> = Vec::new();
    let mut line: Vec<char> = Vec::new();
    let n = cs.len();
    let ghost init: DimacsState = (Seq::empty(), Seq::empty());
    proof {
        assert(clause_views(conjunctions@) =~= Seq::<Seq<i32>>::empty());
        assert(disjunction_stack@ =~= Seq::<i32>::empty());
    }
    for k in 0..n
        invariant
            n == cs@.len(),
            cs@ == content@,
            split_at_seps(cs@.take(k as int), newline_sep()).len() >= 1,
            line@ == split_at_seps(cs@.take(k as int), newline_sep()).last(),
            (disjunction_stack@, clause_views(conjunctions@)) == step_lines(
                init,
                split_at_seps(cs@.take(k as int), newline_sep()).drop_last().map_values(
                    |l: Seq<char>| strip_cr(l),
                ),
            ),
    {
        let c = cs[k];
        let ghost p = split_at_seps(cs@.take(k as int), newline_sep());
        let ghost done = p.drop_last().map_values(|l: Seq<char>| strip_cr(l));
        proof {
            assert(cs@.take(k + 1).drop_last() =~= cs@.take(k as int));
            assert(cs@.take(k + 1).last() == c);
        }
        if c == '\n' {
            if line.len() > 0 && line[line.len() - 1] == '\r' {
                line.pop();
            }
            assert(line@ == strip_cr(p.last()));
            read_line(line.as_slice(), &mut disjunction_stack, &mut conjunctions);
            line = Vec::new();
            proof {
                let p2 = split_at_seps(cs@.take(k + 1), newline_sep());
                assert(p2 == p.push(Seq::<char>::empty()));
                assert(p2.drop_last() =~= p);
                let done2 = p2.drop_last().map_values(|l: Seq<char>| strip_cr(l));
                assert(done2.drop_last() =~= done);
                assert(done2.last() == strip_cr(p.last()));
            }
        } else {
            line.push(c);
            proof {
                let p2 = split_at_seps(cs@.take(k + 1), newline_sep());
                assert(p2 == p.update(p.len() - 1, p.last().push(c)));
                assert(p2.drop_last() =~= p.drop_last());
            }
        }
    }
    proof {
        assert(cs@.take(n as int) =~= cs@);
    }
    let ghost p = split_at_seps(content@, newline_sep());
    let ghost done = p.drop_last().map_values(|l: Seq<char>| strip_cr(l));
    if line.len() > 0 {
        read_line(line.as_slice(), &mut disjunction_stack, &mut conjunctions);
        proof {
            assert(done.push(p.last()).drop_last() =~= done);
        }
    }
    proof {
        lemma_dimacs_clauses_are_cut_at_zeros(content@);
    }
    conjunctions
}

} // verus!

verus! {

/// Whether every literal of `cls` is nonzero and has an absolute value in
/// `i32`.
pub fn has_valid_literals(cls: &Vec<Vec<i32>>) -> (r: bool)
    ensures
        r == literals_valid(clause_views(cls@)),
{
    let n = cls.len();
    for i in 0..n
        invariant
            n == cls@.len(),
            forall|i2: int, j2: int|
                0 <= i2 < i && 0 <= j2 < cls@[i2]@.len() ==> #[trigger] cls@[i2]@[j2] != 0
                    && cls@[i2]@[j2] != i32::MIN,
    {
        let c = &cls[i];
        let m = c.len();
        for j in 0..m
            invariant
                n == cls@.len(),
                0 <= i < n,
                *c == cls@[i as int],
                m == c@.len(),
                forall|i2: int, j2: int|
                    0 <= i2 < i && 0 <= j2 < cls@[i2]@.len() ==> #[trigger] cls@[i2]@[j2] != 0
                        && cls@[i2]@[j2] != i32::MIN,
                forall|j2: int| 0 <= j2 < j ==> #[trigger] c@[j2] != 0 && c@[j2] != i32::MIN,
        {
            let l = c[j];
            if l == 0 || l == i32::MIN {
                proof {
                    assert(clause_views(cls@)[i as int][j as int] == l);
                }
                return false;
            }
        }
    }
    proof {
        assert forall|i: int, j: int|
            0 <= i < clause_views(cls@).len() && 0 <= j < clause_views(cls@)[i].len() implies #[trigger] clause_views(
            cls@,
        )[i][j] != 0 && clause_views(cls@)[i][j] != i32::MIN by {
            assert(clause_views(cls@)[i][j] == cls@[i]@[j]);
        }
    }
    true
}

/// The DIMACS text `content` read and renumbered for the solver. `None`
/// when a clause holds the literal `i32::MIN`, whose variable has no value
/// in `i32`.
pub fn parse_dimacs(content: &str) -> (r: Option<FormulaTranslator>)
    ensures
        r is Some <==> literals_valid(dimacs_clauses(content@)),
        r matches Some(t) ==> t.is_translation_of(dimacs_clauses(content@)),
{
    let conjunctions = read_dimacs_clauses(content);
    if !has_valid_literals(&conjunctions) {
        return None;
    }
    Some(FormulaTranslator::new(conjunctions))
}

impl SatFormula for FormulaTranslator {
    open spec fn is_sat_ready(&self) -> bool {
        self.cnf.is_sat_ready()
    }

    open spec fn spec_is_sat(&self) -> bool {
        self.cnf.spec_is_sat()
    }

    fn is_sat(&self) -> (r: bool) {
        self.cnf.is_sat()
    }
}

} // verus!
