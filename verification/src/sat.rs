//! The DPLL decision procedure: unit propagation, branching on an open
//! atom, and the satisfiability question for a CNF formula.
use vstd::prelude::*;
use rand::RngExt;
use crate::primitives::Atom;
use crate::semantics::{
    clause_falsified, clause_has_two_open, atom_set, atoms_numbered_densely, atoms_within, clause_has_open, clause_met, count_open,
    extendable, extends, formula_met, lemma_count_open_refines, lemma_met_extendable,
    lemma_split, lit_holds, lit_open, models, occurs, refines, satisfiable, total,
};
use crate::structures::{
    Assignment, AssignmentBasic, ClauseDisjunctiveBasic, FormulaConjunctiveBasic,
};
use crate::util::{ansi_code, as_colored, AnsiColor};

verus! {

/// The rendering of one slot in the progress display: `1` in green, `0` in
/// red, `-` for an open slot.
pub open spec fn slot_display(v: Option<bool>) -> Seq<char> {
    match v {
        Some(true) => ansi_code(AnsiColor::Green) + seq!['1'] + ansi_code(AnsiColor::Reset),
        Some(false) => ansi_code(AnsiColor::Red) + seq!['0'] + ansi_code(AnsiColor::Reset),
        None => seq!['-'],
    }
}

/// The progress display of an assignment: the renderings of its slots, one
/// after the other.
pub open spec fn gamma_display(g: Seq<Option<bool>>) -> Seq<char>
    decreases g.len(),
{
    if g.len() == 0 {
        Seq::<char>::empty()
    } else {
        gamma_display(g.drop_last()) + slot_display(g.last())
    }
}

/// The progress display of `gamma`, with coloured truth values.
pub fn to_str_gamma<A: Assignment>(gamma: &A) -> (r: String)
    ensures
        r@ == gamma_display(gamma.values()),
{
    let slots = gamma.slots();
    let mut ss = String::new();
    let n = slots.len();
    for i in 0..n
        invariant
            n == slots@.len(),
            slots@ == gamma.values(),
            ss@ == gamma_display(slots@.take(i as int)),
    {
        assert(slots@.take(i + 1).drop_last() =~= slots@.take(i as int));
        match slots[i] {
            None => {
                proof {
                    reveal_strlit("-");
                }
                ss.append("-");
            },
            Some(a) => {
                let colored = if a {
                    proof {
                        reveal_strlit("1");
                    }
                    as_colored("1", AnsiColor::Green)
                } else {
                    proof {
                        reveal_strlit("0");
                    }
                    as_colored("0", AnsiColor::Red)
                };
                ss.append(colored.as_str());
            },
        }
    }
    assert(slots@.take(n as int) =~= slots@);
    ss
}


/// Clause `c` holds up propagation under `g`: it is not met and has fewer
/// than two open literals, so it is a unit clause or a conflict.
pub open spec fn stuck(c: ClauseDisjunctiveBasic, g: Seq<Option<bool>>) -> bool {
    !clause_met(c, g) && !clause_has_two_open(c, g)
}

/// The first clause of `phi` from position `m` on that is stuck under `g`,
/// or the number of clauses when there is none.
pub open spec fn first_stuck(phi: FormulaConjunctiveBasic, g: Seq<Option<bool>>, m: nat) -> nat
    decreases phi.clauses@.len() - m,
{
    if m >= phi.clauses@.len() {
        phi.clauses@.len()
    } else if stuck(phi.clauses@[m as int], g) {
        m
    } else {
        first_stuck(phi, g, m + 1)
    }
}

/// A literal position of `c` whose atom is open under `g`.
pub open spec fn open_position(c: ClauseDisjunctiveBasic, g: Seq<Option<bool>>) -> int {
    choose|j: int| 0 <= j < c.atoms@.len() && #[trigger] lit_open(g, c.atoms@[j])
}

/// Unit propagation from `g`: take the first stuck clause; with no open
/// literal it is a conflict (`false`), with one open literal that literal is
/// fixed and propagation goes on; with no stuck clause it ends (`true`).
/// Gives the verdict and the assignment propagation ends with.
pub open spec fn unit_propagation(phi: FormulaConjunctiveBasic, g: Seq<Option<bool>>) -> (
    bool,
    Seq<Option<bool>>,
)
    decreases count_open(g),
    when phi.wf() && atoms_within(phi, g.len())
{
    let k = first_stuck(phi, g, 0);
    if k >= phi.clauses@.len() {
        (true, g)
    } else {
        let c = phi.clauses@[k as int];
        if !clause_has_open(c, g) {
            (false, g)
        } else {
            let j = open_position(c, g);
            let a = c.atoms@[j];
            let g2 = g.update(a@ - 1, Some(c.truthiness@[j]));
            proof {
                assert(lit_open(g, c.atoms@[j]));
                assert(refines(g2, g));
                lemma_count_open_refines(g, g2, a@ - 1);
            }
            unit_propagation(phi, g2)
        }
    }
}

/// The first stuck clause from `m` on is `i` when `i` is stuck and none
/// between `m` and `i` is.
proof fn lemma_first_stuck_found(phi: FormulaConjunctiveBasic, g: Seq<Option<bool>>, m: nat, i: nat)
    requires
        m <= i < phi.clauses@.len(),
        stuck(phi.clauses@[i as int], g),
        forall|k: int| m <= k < i ==> !#[trigger] stuck(phi.clauses@[k], g),
    ensures
        first_stuck(phi, g, m) == i,
    decreases i - m,
{
    if m < i {
        assert(!stuck(phi.clauses@[m as int], g));
        lemma_first_stuck_found(phi, g, m + 1, i);
    }
}

/// With no stuck clause from `m` on, the search runs to the end.
proof fn lemma_first_stuck_none(phi: FormulaConjunctiveBasic, g: Seq<Option<bool>>, m: nat)
    requires
        forall|k: int| m <= k < phi.clauses@.len() ==> !#[trigger] stuck(phi.clauses@[k], g),
    ensures
        first_stuck(phi, g, m) >= phi.clauses@.len(),
    decreases phi.clauses@.len() - m,
{
    if m < phi.clauses@.len() {
        assert(!stuck(phi.clauses@[m as int], g));
        lemma_first_stuck_none(phi, g, m + 1);
    }
}

/// Unit propagation. Clause by clause: a clause with a literal that holds
/// is skipped; a clause with no open atom left fails the propagation; a
/// clause with exactly one open literal fixes that literal and starts over.
fn up<A: Assignment>(phi: &FormulaConjunctiveBasic, gamma: &mut A) -> (r: bool)
    requires
        phi.wf(),
        atoms_within(*phi, old(gamma).values().len()),
    ensures
        refines(final(gamma).values(), old(gamma).values()),
        forall|s: Seq<bool>|
            extends(s, old(gamma).values()) && models(s, *phi) <==> extends(
                s,
                final(gamma).values(),
            ) && #[trigger] models(s, *phi),
        !r ==> !extendable(*phi, final(gamma).values()),
        r ==> forall|i: int|
            0 <= i < phi.clauses@.len() ==> clause_met(phi.clauses@[i], final(gamma).values())
                || #[trigger] clause_has_two_open(phi.clauses@[i], final(gamma).values()),
        !r ==> exists|i: int|
            0 <= i < phi.clauses@.len() && #[trigger] clause_falsified(
                phi.clauses@[i],
                final(gamma).values(),
            ),
        r == unit_propagation(*phi, old(gamma).values()).0,
        final(gamma).values() == unit_propagation(*phi, old(gamma).values()).1,
    decreases count_open(old(gamma).values()),
{
    let ghost g0 = gamma.values();
    let n_clauses = phi.clauses.len();
    let mut i: usize = 0;
    while i < n_clauses
        invariant
            n_clauses == phi.clauses@.len(),
            phi.wf(),
            atoms_within(*phi, g0.len()),
            gamma.values() == g0,
            g0 == old(gamma).values(),
            0 <= i <= n_clauses,
            forall|k: int| 0 <= k < i ==> !#[trigger] stuck(phi.clauses@[k], g0),
        decreases n_clauses - i,
    {
        let clause: &ClauseDisjunctiveBasic = &phi.clauses[i];
        assert(clause.wf());
        let n_lits = clause.atoms.len();

        // if there is a literal in this clause that is met in gamma, the
        // clause is satisfied
        let mut is_clause_met = false;
        let mut j: usize = 0;
        while j < n_lits && !is_clause_met
            invariant
                n_lits == clause.atoms@.len(),
                clause.wf(),
                *clause == phi.clauses@[i as int],
                atoms_within(*phi, g0.len()),
                0 <= i < n_clauses,
                n_clauses == phi.clauses@.len(),
                gamma.values() == g0,
                g0 == old(gamma).values(),
            g0 == old(gamma).values(),
                0 <= j <= n_lits,
                is_clause_met ==> clause_met(*clause, g0),
                !is_clause_met ==> forall|k: int|
                    0 <= k < j ==> !#[trigger] lit_holds(g0, clause.atoms@[k], clause.truthiness@[k]),
            decreases n_lits - j + if is_clause_met { 0int } else { 1int },
        {
            let atom = clause.atoms[j];
            assert(1 <= atom@ <= g0.len()) by {
                assert(atoms_within(*phi, g0.len()));
                assert(phi.clauses@[i as int].atoms@[j as int] == atom);
            }
            match gamma.get(atom) {
                Some(curr_atom_assignment) => {
                    if clause.truthiness[j] == curr_atom_assignment {
                        is_clause_met = true;
                        assert(lit_holds(g0, clause.atoms@[j as int], clause.truthiness@[j as int]));
                    } else {
                        j = j + 1;
                    }
                },
                None => {
                    j = j + 1;
                },
            }
        }

        if is_clause_met {
            i = i + 1;
        } else {
            // figure out whether this is a unit clause, and if so which literal
            let mut unit_literal: Option<(Atom, bool)> = None;
            let ghost mut unit_pos: int = 0;
            let mut is_not_unit_literal = false;
            let mut j: usize = 0;
            while j < n_lits && !is_not_unit_literal
                invariant
                    n_lits == clause.atoms@.len(),
                    clause.wf(),
                    *clause == phi.clauses@[i as int],
                    atoms_within(*phi, g0.len()),
                    0 <= i < n_clauses,
                    n_clauses == phi.clauses@.len(),
                    gamma.values() == g0,
                    g0 == old(gamma).values(),
                g0 == old(gamma).values(),
            g0 == old(gamma).values(),
                    0 <= j <= n_lits,
                    is_not_unit_literal ==> j < n_lits && lit_open(g0, clause.atoms@[j as int]),
                    unit_literal is None ==> !is_not_unit_literal && forall|k: int|
                        0 <= k < j ==> !#[trigger] lit_open(g0, clause.atoms@[k]),
                    unit_literal is Some ==> {
                        &&& 0 <= unit_pos < j
                        &&& lit_open(g0, clause.atoms@[unit_pos])
                        &&& unit_literal == Some(
                            (clause.atoms@[unit_pos], clause.truthiness@[unit_pos]),
                        )
                        &&& !is_not_unit_literal ==> forall|k: int|
                            0 <= k < j && k != unit_pos ==> !#[trigger] lit_open(
                                g0,
                                clause.atoms@[k],
                            )
                    },
                decreases n_lits - j + if is_not_unit_literal { 0int } else { 1int },
            {
                let atom = clause.atoms[j];
                assert(1 <= atom@ <= g0.len()) by {
                    assert(phi.clauses@[i as int].atoms@[j as int] == atom);
                }
                if !gamma.is_set(atom) {
                    // more than one open literal in this clause
                    if unit_literal.is_some() {
                        is_not_unit_literal = true;
                    } else {
                        unit_literal = Some((atom, clause.truthiness[j]));
                        proof {
                            unit_pos = j as int;
                        }
                        j = j + 1;
                    }
                } else {
                    j = j + 1;
                }
            }

            match unit_literal {
                None => {
                    // the clause is not met and no literal is open: this
                    // branch cannot be extended to a model
                    proof {
                        assert forall|s: Seq<bool>|
                            extends(s, g0) implies !#[trigger] models(s, *phi) by {
                            if models(s, *phi) {
                                assert(clause_met(phi.clauses@[i as int], total(s)));
                                let k = choose|k: int|
                                    0 <= k < clause.atoms@.len() && #[trigger] lit_holds(
                                        total(s),
                                        clause.atoms@[k],
                                        clause.truthiness@[k],
                                    );
                                assert(!lit_open(g0, clause.atoms@[k]));
                                assert(phi.clauses@[i as int].atoms@[k] == clause.atoms@[k]);
                                assert(!lit_holds(g0, clause.atoms@[k], clause.truthiness@[k]));
                            }
                        }
                        assert(refines(g0, g0));
                        let c = phi.clauses@[i as int];
                        assert(!clause_met(c, g0));
                        assert(!clause_has_open(c, g0));
                        assert(stuck(c, g0));
                        lemma_first_stuck_found(*phi, g0, 0, i as nat);
                        assert forall|k: int| 0 <= k < c.atoms@.len() implies lit_holds(
                            g0,
                            #[trigger] c.atoms@[k],
                            !c.truthiness@[k],
                        ) by {
                            assert(phi.clauses@[i as int].atoms@[k] == c.atoms@[k]);
                            assert(1 <= c.atoms@[k]@ <= g0.len());
                            assert(clause.atoms@[k] == c.atoms@[k]);
                            assert(!lit_open(g0, clause.atoms@[k]));
                            assert(!lit_holds(g0, c.atoms@[k], c.truthiness@[k]));
                            let v = g0[c.atoms@[k]@ - 1];
                            assert(v is Some);
                            assert(v != Some(c.truthiness@[k]));
                            assert(v == Some(!c.truthiness@[k]));
                        }
                        assert(clause_falsified(c, g0));
                    }
                    return false;
                },
                Some(unassigned) => {
                    if is_not_unit_literal {
                        // two or more open literals
                        proof {
                            let c = phi.clauses@[i as int];
                            assert(lit_open(g0, c.atoms@[unit_pos]));
                            assert(lit_open(g0, c.atoms@[j as int]));
                            assert(clause_has_two_open(c, g0));
                        }
                        i = i + 1;
                    } else {
                        let ghost a = unassigned.0;
                        let ghost t = unassigned.1;
                        let ghost g1 = g0.update(a@ - 1, Some(t));
                        proof {
                            let c = phi.clauses@[i as int];
                            assert(!clause_met(c, g0));
                            assert(!clause_has_two_open(c, g0)) by {
                                if clause_has_two_open(c, g0) {
                                    let (p, q) = choose|p: int, q: int|
                                        #![trigger lit_open(g0, c.atoms@[p]), lit_open(g0, c.atoms@[q])]
                                        0 <= p < q < c.atoms@.len() && lit_open(g0, c.atoms@[p])
                                            && lit_open(g0, c.atoms@[q]);
                                    assert(p == unit_pos || !lit_open(g0, clause.atoms@[p]));
                                    assert(q == unit_pos || !lit_open(g0, clause.atoms@[q]));
                                }
                            }
                            assert(stuck(c, g0));
                            lemma_first_stuck_found(*phi, g0, 0, i as nat);
                            assert(clause_has_open(c, g0));
                            let jj = open_position(c, g0);
                            assert(lit_open(g0, c.atoms@[jj]));
                            assert(jj == unit_pos) by {
                                if jj != unit_pos {
                                    assert(!lit_open(g0, clause.atoms@[jj]));
                                }
                            }
                            assert(unit_propagation(*phi, g0) == unit_propagation(*phi, g1));
                        }
                        proof {
                            // every model that extends g0 gives the unit literal its value
                            assert forall|s: Seq<bool>|
                                extends(s, g0) && #[trigger] models(s, *phi) implies extends(
                                s,
                                g1,
                            ) by {
                                assert(clause_met(phi.clauses@[i as int], total(s)));
                                let k = choose|k: int|
                                    0 <= k < clause.atoms@.len() && #[trigger] lit_holds(
                                        total(s),
                                        clause.atoms@[k],
                                        clause.truthiness@[k],
                                    );
                                if k != unit_pos {
                                    assert(phi.clauses@[i as int].atoms@[k] == clause.atoms@[k]);
                                    assert(!lit_open(g0, clause.atoms@[k]));
                                    assert(lit_holds(g0, clause.atoms@[k], clause.truthiness@[k]));
                                }
                                assert forall|m: int|
                                    0 <= m < g1.len() && (#[trigger] g1[m]) is Some implies g1[m]
                                    == Some(s[m]) by {
                                    if m != a@ - 1 {
                                        assert(g0[m] is Some);
                                    }
                                }
                            }
                            assert forall|s: Seq<bool>| extends(s, g1) implies #[trigger] extends(
                                s,
                                g0,
                            ) by {
                                assert forall|m: int|
                                    0 <= m < g0.len() && (#[trigger] g0[m]) is Some implies g0[m]
                                    == Some(s[m]) by {
                                    assert(g1[m] == g0[m]);
                                }
                            }
                        }
                        gamma.set(unassigned.0, unassigned.1);
                        proof {
                            assert(refines(g1, g0));
                            lemma_count_open_refines(g0, g1, a@ - 1);
                        }
                        let r = up(phi, gamma);
                        proof {
                            let gf = gamma.values();
                            assert(refines(gf, g0)) by {
                                assert forall|k: int|
                                    0 <= k < g0.len() && (#[trigger] g0[k]) is Some implies gf[k]
                                    == g0[k] by {
                                    assert(g1[k] is Some);
                                }
                            }
                            if !r {
                                assert(!extendable(*phi, gf));
                            }
                        }
                        return r;
                    }
                },
            }
        }
    }
    proof {
        lemma_first_stuck_none(*phi, g0, 0);
        assert forall|k: int| 0 <= k < phi.clauses@.len() implies clause_met(phi.clauses@[k], g0)
            || #[trigger] clause_has_two_open(phi.clauses@[k], g0) by {
            assert(!stuck(phi.clauses@[k], g0));
        }
    }
    true
}

/// Every clause has a literal that holds under `gamma`.
fn is_valid<A: Assignment>(phi: &FormulaConjunctiveBasic, gamma: &A) -> (r: bool)
    requires
        phi.wf(),
        atoms_within(*phi, gamma.values().len()),
    ensures
        r == formula_met(*phi, gamma.values()),
{
    let ghost g = gamma.values();
    let n_clauses = phi.clauses.len();
    for i in 0..n_clauses
        invariant
            n_clauses == phi.clauses@.len(),
            phi.wf(),
            atoms_within(*phi, g.len()),
            gamma.values() == g,
            forall|k: int| 0 <= k < i ==> #[trigger] clause_met(phi.clauses@[k], g),
    {
        let clause: &ClauseDisjunctiveBasic = &phi.clauses[i];
        assert(clause.wf());
        let n_lits = clause.atoms.len();
        let mut is_clause_met = false;
        let mut j: usize = 0;
        while j < n_lits && !is_clause_met
            invariant
                n_lits == clause.atoms@.len(),
                clause.wf(),
                *clause == phi.clauses@[i as int],
                atoms_within(*phi, g.len()),
                0 <= i < n_clauses,
                n_clauses == phi.clauses@.len(),
                gamma.values() == g,
                0 <= j <= n_lits,
                is_clause_met ==> clause_met(*clause, g),
                !is_clause_met ==> forall|k: int|
                    0 <= k < j ==> !#[trigger] lit_holds(g, clause.atoms@[k], clause.truthiness@[k]),
            decreases n_lits - j + if is_clause_met { 0int } else { 1int },
        {
            let atom = clause.atoms[j];
            assert(1 <= atom@ <= g.len()) by {
                assert(phi.clauses@[i as int].atoms@[j as int] == atom);
            }
            match gamma.get(atom) {
                Some(atom_curr_truthiness) => {
                    if atom_curr_truthiness == clause.truthiness[j] {
                        is_clause_met = true;
                        assert(lit_holds(g, clause.atoms@[j as int], clause.truthiness@[j as int]));
                    } else {
                        j = j + 1;
                    }
                },
                None => {
                    j = j + 1;
                },
            }
        }
        // every clause must be met to have gamma |= phi
        if !is_clause_met {
            assert(!clause_met(phi.clauses@[i as int], g));
            return false;
        }
    }
    true
}

/// Atom `a` occurs in a clause before clause `i`, or in clause `i` before
/// position `j`.
spec fn occurs_before(phi: FormulaConjunctiveBasic, i: int, j: int, a: Atom) -> bool {
    exists|p: int, q: int|
        0 <= p <= i && p < phi.clauses@.len() && 0 <= q < phi.clauses@[p].atoms@.len() && (p < i
            || q < j) && #[trigger] phi.clauses@[p].atoms@[q] == a
}

/// The distinct atoms of `phi`, each once, in order of first occurrence.
/// With the atoms numbered densely these are exactly `1..=n`.
/// The atoms of the clauses `cls`, clause after clause, each clause's in
/// order.
pub open spec fn atom_stream(cls: Seq<ClauseDisjunctiveBasic>) -> Seq<Atom>
    decreases cls.len(),
{
    if cls.len() == 0 {
        Seq::<Atom>::empty()
    } else {
        atom_stream(cls.drop_last()) + cls.last().atoms@
    }
}

/// The atoms of `s` in order of first occurrence, each once.
pub open spec fn first_occurrences(s: Seq<Atom>) -> Seq<Atom>
    decreases s.len(),
{
    if s.len() == 0 {
        Seq::<Atom>::empty()
    } else {
        let p = first_occurrences(s.drop_last());
        if p.contains(s.last()) {
            p
        } else {
            p.push(s.last())
        }
    }
}

fn get_atoms_phi(phi: &FormulaConjunctiveBasic) -> (r: Vec<Atom>)
    requires
        atoms_numbered_densely(*phi),
    ensures
        r@.no_duplicates(),
        forall|a: Atom| r@.contains(a) <==> occurs(*phi, a),
        r@.len() == atom_set(*phi).len(),
        forall|k: int| 0 <= k < r@.len() ==> 1 <= (#[trigger] r@[k])@ <= r@.len(),
        r@ == first_occurrences(atom_stream(phi.clauses@)),
{
    let mut atoms: Vec<Atom> = Vec::new();
    let n_clauses = phi.clauses.len();
    proof {
        assert(phi.clauses@.take(0) =~= Seq::<ClauseDisjunctiveBasic>::empty());
    }
    for i in 0..n_clauses
        invariant
            n_clauses == phi.clauses@.len(),
            atoms@ == first_occurrences(atom_stream(phi.clauses@.take(i as int))),
            atoms@.no_duplicates(),
            forall|a: Atom| atoms@.contains(a) <==> occurs_before(*phi, i as int, 0, a),
    {
        let clause: &ClauseDisjunctiveBasic = &phi.clauses[i];
        let n_lits = clause.atoms.len();
        let ghost base = atom_stream(phi.clauses@.take(i as int));
        proof {
            assert(base + clause.atoms@.take(0) =~= base);
        }
        for j in 0..n_lits
            invariant
                n_lits == clause.atoms@.len(),
                *clause == phi.clauses@[i as int],
                base == atom_stream(phi.clauses@.take(i as int)),
                atoms@ == first_occurrences(base + clause.atoms@.take(j as int)),
                0 <= i < n_clauses,
                n_clauses == phi.clauses@.len(),
                atoms@.no_duplicates(),
                forall|a: Atom| atoms@.contains(a) <==> occurs_before(*phi, i as int, j as int, a),
        {
            let atom = clause.atoms[j];
            let mut present = false;
            let n_seen = atoms.len();
            for k in 0..n_seen
                invariant
                    n_seen == atoms@.len(),
                    present <==> exists|m: int| 0 <= m < k && atoms@[m] == atom,
            {
                if atoms[k] == atom {
                    present = true;
                }
            }
            proof {
                assert(phi.clauses@[i as int].atoms@[j as int] == atom);
                assert(present <==> atoms@.contains(atom));
            }
            let ghost prev = atoms@;
            if !present {
                atoms.push(atom);
            }
            proof {
                let st = base + clause.atoms@.take(j + 1);
                assert(st.drop_last() =~= base + clause.atoms@.take(j as int));
                assert(st.last() == atom);
            }
            proof {
                assert forall|a: Atom| atoms@.contains(a) <==> occurs_before(
                    *phi,
                    i as int,
                    j + 1,
                    a,
                ) by {
                    if a == atom {
                        assert(phi.clauses@[i as int].atoms@[j as int] == atom);
                        assert(occurs_before(*phi, i as int, j + 1, a));
                        if !present {
                            assert(atoms@[atoms@.len() - 1] == atom);
                        }
                    } else {
                        if occurs_before(*phi, i as int, j + 1, a) {
                            let (p, q) = choose|p: int, q: int|
                                0 <= p <= i && p < phi.clauses@.len() && 0 <= q
                                    < phi.clauses@[p].atoms@.len() && (p < i || q < j + 1)
                                    && #[trigger] phi.clauses@[p].atoms@[q] == a;
                            assert(occurs_before(*phi, i as int, j as int, a));
                            assert(prev.contains(a));
                            let m = choose|m: int| 0 <= m < prev.len() && prev[m] == a;
                            assert(atoms@[m] == a);
                        }
                        if atoms@.contains(a) {
                            let m = choose|m: int| 0 <= m < atoms@.len() && atoms@[m] == a;
                            assert(prev[m] == a);
                            assert(prev.contains(a));
                            assert(occurs_before(*phi, i as int, j as int, a));
                            let (p, q) = choose|p: int, q: int|
                                0 <= p <= i && p < phi.clauses@.len() && 0 <= q
                                    < phi.clauses@[p].atoms@.len() && (p < i || q < j)
                                    && #[trigger] phi.clauses@[p].atoms@[q] == a;
                            assert(occurs_before(*phi, i as int, j + 1, a));
                        }
                    }
                }
            }
        }
        proof {
            let tk = phi.clauses@.take(i + 1);
            assert(tk.drop_last() =~= phi.clauses@.take(i as int));
            assert(tk.last() == *clause);
            assert(clause.atoms@.take(n_lits as int) =~= clause.atoms@);
            assert(atom_stream(tk) == base + clause.atoms@);
            assert forall|a: Atom| atoms@.contains(a) <==> occurs_before(
                *phi,
                i + 1,
                0,
                a,
            ) by {
                if occurs_before(*phi, i + 1, 0, a) {
                    let (p, q) = choose|p: int, q: int|
                        0 <= p <= i + 1 && p < phi.clauses@.len() && 0 <= q
                            < phi.clauses@[p].atoms@.len() && (p < i + 1 || q < 0)
                            && #[trigger] phi.clauses@[p].atoms@[q] == a;
                    assert(occurs_before(*phi, i as int, n_lits as int, a));
                }
                if occurs_before(*phi, i as int, n_lits as int, a) {
                    let (p, q) = choose|p: int, q: int|
                        0 <= p <= i && p < phi.clauses@.len() && 0 <= q
                            < phi.clauses@[p].atoms@.len() && (p < i || q < n_lits)
                            && #[trigger] phi.clauses@[p].atoms@[q] == a;
                    assert(occurs_before(*phi, i + 1, 0, a));
                }
            }
        }
    }
    proof {
        assert forall|a: Atom| atoms@.contains(a) <==> occurs(*phi, a) by {
            if occurs(*phi, a) {
                let (p, q) = choose|p: int, q: int|
                    0 <= p < phi.clauses@.len() && 0 <= q < phi.clauses@[p].atoms@.len()
                        && #[trigger] phi.clauses@[p].atoms@[q] == a;
                assert(occurs_before(*phi, n_clauses as int, 0, a));
            }
            if occurs_before(*phi, n_clauses as int, 0, a) {
                let (p, q) = choose|p: int, q: int|
                    0 <= p <= n_clauses && p < phi.clauses@.len() && 0 <= q
                        < phi.clauses@[p].atoms@.len() && (p < n_clauses || q < 0)
                        && #[trigger] phi.clauses@[p].atoms@[q] == a;
                assert(occurs(*phi, a));
            }
        }
        assert(phi.clauses@.take(n_clauses as int) =~= phi.clauses@);
        assert(atoms@.to_set() =~= atom_set(*phi));
        atoms@.unique_seq_to_set();
        assert forall|k: int| 0 <= k < atoms@.len() implies 1 <= (#[trigger] atoms@[k])@
            <= atoms@.len() by {
            assert(atoms@.contains(atoms@[k]));
            assert(occurs(*phi, atoms@[k]));
        }
    }
    atoms
}

/// The atoms of `atoms_phi` that are still open under `gamma`, in order.
fn get_open_atoms<A: Assignment>(atoms_phi: &[Atom], gamma: &A) -> (r: Vec<Atom>)
    requires
        forall|k: int|
            0 <= k < atoms_phi@.len() ==> 1 <= (#[trigger] atoms_phi@[k])@ <= gamma.values().len(),
    ensures
        forall|k: int|
            0 <= k < r@.len() ==> atoms_phi@.contains(#[trigger] r@[k]) && lit_open(
                gamma.values(),
                r@[k],
            ),
        forall|a: Atom| #[trigger] atoms_phi@.contains(a) && lit_open(gamma.values(), a) ==> r@.contains(a),
        r@ == atoms_phi@.filter(|a: Atom| lit_open(gamma.values(), a)),
{
    let mut r: Vec<Atom> = Vec::new();
    let n = atoms_phi.len();
    let ghost open = |a: Atom| lit_open(gamma.values(), a);
    proof {
        assert(atoms_phi@.take(0) =~= Seq::<Atom>::empty());
        assert(Seq::<Atom>::empty().filter(open) =~= Seq::<Atom>::empty()) by {
            reveal(Seq::filter);
        }
    }
    for i in 0..n
        invariant
            n == atoms_phi@.len(),
            open == (|a: Atom| lit_open(gamma.values(), a)),
            r@ == atoms_phi@.take(i as int).filter(open),
            forall|k: int|
                0 <= k < atoms_phi@.len() ==> 1 <= (#[trigger] atoms_phi@[k])@
                    <= gamma.values().len(),
            forall|k: int|
                0 <= k < r@.len() ==> atoms_phi@.contains(#[trigger] r@[k]) && lit_open(
                    gamma.values(),
                    r@[k],
                ),
            forall|k: int|
                0 <= k < i && lit_open(gamma.values(), #[trigger] atoms_phi@[k]) ==> r@.contains(
                    atoms_phi@[k],
                ),
    {
        let a = atoms_phi[i];
        let ghost prev = r@;
        if gamma.get(a).is_none() {
            r.push(a);
            proof {
                assert(r@[r@.len() - 1] == a);
                assert(forall|k: int| 0 <= k < r@.len() - 1 ==> r@[k] == prev[k]);
                assert(atoms_phi@.contains(a)) by {
                    assert(atoms_phi@[i as int] == a);
                }
            }
        }
        proof {
            assert forall|k: int|
                0 <= k < i + 1 && lit_open(gamma.values(), #[trigger] atoms_phi@[k]) implies r@.contains(
                atoms_phi@[k],
            ) by {
                if k < i {
                    let m = choose|m: int| 0 <= m < prev.len() && prev[m] == atoms_phi@[k];
                    assert(r@[m] == atoms_phi@[k]);
                } else {
                    assert(r@[r@.len() - 1] == a);
                }
            }
            assert(atoms_phi@.take(i + 1) =~= atoms_phi@.take(i as int).push(a));
            atoms_phi@.take(i as int).lemma_filter_push(a, open);
            assert(open(a) == lit_open(gamma.values(), a));
        }
    }
    proof {
        assert(atoms_phi@.take(n as int) =~= atoms_phi@);
    }
    r
}

/// Calls `rand::rng().random_range(0..bound)`, which draws an index below
/// `bound`; which index comes out is chance and is not stated. It panics on an
/// empty range, which `requires` rules out, and when the system source of
/// randomness cannot seed the thread generator, which nothing here can rule
/// out.
#[verifier::external_body]
fn random_index(bound: usize) -> (r: usize)
    requires
        bound > 0,
    ensures
        r < bound,
{
    rand::rng().random_range(0..bound)
}

/// The DPLL search: propagate units, stop when every clause is met, else
/// branch on a randomly chosen open atom, `true` first.
fn dpll(phi: &FormulaConjunctiveBasic, atoms_phi: &Vec<Atom>, gamma: &mut AssignmentBasic) -> (r:
    bool)
    requires
        phi.wf(),
        atoms_within(*phi, old(gamma).values().len()),
        forall|k: int|
            0 <= k < atoms_phi@.len() ==> 1 <= (#[trigger] atoms_phi@[k])@ <= old(
                gamma,
            ).values().len(),
        forall|a: Atom| #[trigger] occurs(*phi, a) ==> atoms_phi@.contains(a),
    ensures
        r == extendable(*phi, old(gamma).values()),
    decreases count_open(old(gamma).values()),
{
    let ghost g0 = gamma.values();
    let res = up(phi, gamma);
    if !res {
        return false;
    }
    let ghost g1 = gamma.values();
    proof {
        assert(extendable(*phi, g0) == extendable(*phi, g1)) by {
            if extendable(*phi, g0) {
                let s = choose|s: Seq<bool>| extends(s, g0) && #[trigger] models(s, *phi);
                assert(extends(s, g1) && models(s, *phi));
            }
            if extendable(*phi, g1) {
                let s = choose|s: Seq<bool>| extends(s, g1) && #[trigger] models(s, *phi);
                assert(extends(s, g0) && models(s, *phi));
            }
        }
    }
    if is_valid(phi, gamma) {
        proof {
            lemma_met_extendable(*phi, g1);
        }
        return true;
    }
    let open_atoms = get_open_atoms(atoms_phi.as_slice(), gamma);
    proof {
        // a clause that is not met still has an open atom, so there is
        // something to branch on
        let i = choose|i: int|
            0 <= i < phi.clauses@.len() && !#[trigger] clause_met(phi.clauses@[i], g1);
        assert(clause_has_two_open(phi.clauses@[i], g1));
        let c = phi.clauses@[i];
        let (p, q) = choose|p: int, q: int|
            #![trigger lit_open(g1, c.atoms@[p]), lit_open(g1, c.atoms@[q])]
            0 <= p < q < c.atoms@.len() && lit_open(g1, c.atoms@[p]) && lit_open(g1, c.atoms@[q]);
        assert(clause_has_open(phi.clauses@[i], g1));
        let j = choose|j: int|
            0 <= j < phi.clauses@[i].atoms@.len() && #[trigger] lit_open(
                g1,
                phi.clauses@[i].atoms@[j],
            );
        let a = phi.clauses@[i].atoms@[j];
        assert(occurs(*phi, a));
        assert(atoms_phi@.contains(a));
        assert(open_atoms@.contains(a));
    }
    let idx = random_index(open_atoms.len());
    let a = open_atoms[idx];
    proof {
        assert(lit_open(g1, open_atoms@[idx as int]));
        lemma_split(*phi, g1, a@ - 1);
    }

    let mut gamma_cloned = gamma.clone();
    gamma_cloned.set(a, true);
    proof {
        assert(refines(g1.update(a@ - 1, Some(true)), g1));
        lemma_count_open_refines(g1, g1.update(a@ - 1, Some(true)), a@ - 1);
        lemma_count_open_refines(g0, g1, 0);
    }
    if dpll(phi, atoms_phi, &mut gamma_cloned) {
        return true;
    }
    gamma.set(a, false);
    proof {
        assert(refines(g1.update(a@ - 1, Some(false)), g1));
        lemma_count_open_refines(g1, g1.update(a@ - 1, Some(false)), a@ - 1);
    }
    dpll(phi, atoms_phi, gamma)
}

/// A formula whose satisfiability can be decided.
pub trait SatFormula {
    /// The formula is in the shape the decision procedure accepts.
    spec fn is_sat_ready(&self) -> bool;

    /// The formula has a model.
    spec fn spec_is_sat(&self) -> bool;

    /// Decides whether the formula has a model.
    fn is_sat(&self) -> (r: bool)
        requires
            self.is_sat_ready(),
        ensures
            r == self.spec_is_sat(),
    ;
}

/// `s` cut or padded with `false` to `n` slots.
spec fn resize(s: Seq<bool>, n: nat) -> Seq<bool> {
    Seq::new(n, |k: int| if k < s.len() { s[k] } else { false })
}

/// Only the slots of the atoms that occur matter to a model.
proof fn lemma_resize_models(phi: FormulaConjunctiveBasic, s: Seq<bool>, n: nat)
    requires
        atoms_within(phi, n),
        models(s, phi),
    ensures
        models(resize(s, n), phi),
{
    let s2 = resize(s, n);
    assert forall|i: int| 0 <= i < phi.clauses@.len() implies #[trigger] clause_met(
        phi.clauses@[i],
        total(s2),
    ) by {
        let c = phi.clauses@[i];
        assert(clause_met(c, total(s)));
        let j = choose|j: int|
            0 <= j < c.atoms@.len() && #[trigger] lit_holds(total(s), c.atoms@[j], c.truthiness@[j]);
        assert(1 <= phi.clauses@[i].atoms@[j]@ <= n);
        assert(lit_holds(total(s2), c.atoms@[j], c.truthiness@[j]));
    }
}

impl SatFormula for FormulaConjunctiveBasic {
    open spec fn is_sat_ready(&self) -> bool {
        self.wf() && atoms_numbered_densely(*self)
    }

    open spec fn spec_is_sat(&self) -> bool {
        satisfiable(*self)
    }

    fn is_sat(&self) -> (r: bool) {
        let atoms_phi = get_atoms_phi(self);
        let mut assignment = <AssignmentBasic as Assignment>::new(atoms_phi.len());
        let ghost n = atoms_phi@.len();
        let ghost g = assignment.values();
        proof {
            assert forall|i: int, j: int|
                0 <= i < self.clauses@.len() && 0 <= j < self.clauses@[i].atoms@.len() implies 1
                <= (#[trigger] self.clauses@[i].atoms@[j])@ <= n by {
                assert(occurs(*self, self.clauses@[i].atoms@[j]));
            }
            assert forall|a: Atom| #[trigger] occurs(*self, a) implies atoms_phi@.contains(a) by {
            }
        }
        let r = dpll(self, &atoms_phi, &mut assignment);
        proof {
            if satisfiable(*self) {
                let s = choose|s: Seq<bool>| #[trigger] models(s, *self);
                lemma_resize_models(*self, s, n);
                assert(extends(resize(s, n), g));
            }
            if extendable(*self, g) {
                let s = choose|s: Seq<bool>| extends(s, g) && #[trigger] models(s, *self);
                assert(satisfiable(*self));
            }
        }
        r
    }
}

} // verus!
