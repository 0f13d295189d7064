//! Containers of the solver back end: partial assignments, disjunctive
//! clauses and conjunctive formulas over [`Atom`]s.
use vstd::prelude::*;
use crate::primitives::{Atom, AtomType};
use crate::text::{char_vec_views, decimal, decimal_chars, join, join_chars, string_from_chars};

verus! {

/// The slot of `atom` in an assignment: atoms are numbered from one, slots
/// from zero.
pub fn get_idx_from_atom(atom: Atom) -> (r: usize)
    requires
        atom@ > 0,
    ensures
        r == atom@ - 1,
{
    proof {
        atom.lemma_bounded();
    }
    usize::from(atom) - 1
}

/// The atom that owns slot `idx`; the number is truncated to the width of
/// [`AtomType`].
pub fn get_atom_from_idx(idx: usize) -> (r: Atom)
    requires
        idx < usize::MAX,
    ensures
        r@ == ((idx + 1) as AtomType),
{
    let v: AtomType = (idx + 1) as AtomType;
    let r = Atom::from(v);
    proof {
        Atom::lemma_spec_new(v);
    }
    r
}

/// Slots and atoms correspond one to one: the atom that owns the slot of
/// atom `a` is `a`, and the slot of the atom that owns slot `i` is `i`, for
/// every slot whose atom fits in [`AtomType`].
pub proof fn lemma_idx_atom_round_trip(a: nat, i: nat)
    ensures
        1 <= a <= AtomType::MAX ==> (((a - 1) + 1) as AtomType) as nat == a,
        i < AtomType::MAX ==> (((i + 1) as AtomType) as nat) - 1 == i,
{
}

// -------------------------------
// Assignment
// -------------------------------

/// The character that stands for one slot of an assignment in its compact
/// rendering.
pub open spec fn slot_char(v: Option<bool>) -> char {
    match v {
        Some(true) => '1',
        Some(false) => '0',
        None => '-',
    }
}

/// The text of a literal: the atom's number, after a negation sign when the
/// literal needs the atom false.
pub open spec fn literal_text(atom: nat, t: bool) -> Seq<char> {
    if t {
        decimal(atom)
    } else {
        seq!['\u{00AC}'] + decimal(atom)
    }
}

/// The text of the literal `atom` with truth value `t`.
pub fn literal_chars(atom: Atom, t: bool) -> (r: Vec<char>)
    ensures
        r@ == literal_text(atom@, t),
{
    let mut digits = decimal_chars(atom.value() as u64);
    if t {
        digits
    } else {
        let mut r: Vec<char> = Vec::new();
        r.push('\u{00AC}');
        r.append(&mut digits);
        r
    }
}

/// The texts of the slots of `g` that hold a value, in slot order; slot `i`
/// stands for the atom `i + 1`, truncated to the width of [`AtomType`].
pub open spec fn assigned_texts(g: Seq<Option<bool>>) -> Seq<Seq<char>>
    decreases g.len(),
{
    if g.len() == 0 {
        Seq::<Seq<char>>::empty()
    } else {
        let p = assigned_texts(g.drop_last());
        match g.last() {
            Some(t) => p.push(literal_text((g.len() as AtomType) as nat, t)),
            None => p,
        }
    }
}

/// The text of an assignment: its assigned literals between brackets,
/// separated by commas.
pub open spec fn assignment_text(g: Seq<Option<bool>>) -> Seq<char> {
    seq!['['] + join(assigned_texts(g), seq![',']) + seq![']']
}

/// A partial assignment of truth values to the atoms `1..=n`.
pub trait Assignment: Sized {
    /// Slot `i` holds the value of atom `i + 1`, or `None` while it is open.
    spec fn values(&self) -> Seq<Option<bool>>;

    /// An assignment of `size` atoms, all open.
    fn new(size: usize) -> (r: Self)
        ensures
            r.values() == Seq::new(size as nat, |i: int| None::<bool>),
    ;

    /// The value of `atom`.
    fn get(&self, atom: Atom) -> (r: Option<bool>)
        requires
            1 <= atom@ <= self.values().len(),
        ensures
            r == self.values()[atom@ - 1],
    ;

    /// Whether `atom` has a value; an atom past the end has none.
    fn is_set(&self, atom: Atom) -> (r: bool)
        requires
            1 <= atom@,
        ensures
            r == (atom@ <= self.values().len() && self.values()[atom@ - 1] is Some),
    ;

    /// Gives `atom` the value `value`.
    fn set(&mut self, atom: Atom, value: bool)
        requires
            1 <= atom@ <= old(self).values().len(),
        ensures
            final(self).values() == old(self).values().update(atom@ - 1, Some(value)),
    ;

    /// Opens `atom` again.
    fn clear(&mut self, atom: Atom)
        requires
            1 <= atom@ <= old(self).values().len(),
        ensures
            final(self).values() == old(self).values().update(atom@ - 1, None),
    ;

    /// One character per slot: `1`, `0`, or `-` for an open atom.
    fn as_formatted_str(&self) -> (r: String)
        ensures
            r@ == self.values().map_values(|v: Option<bool>| slot_char(v)),
    ;

    /// The number of atoms the assignment has slots for.
    fn get_num_atoms(&self) -> (r: usize)
        ensures
            r == self.values().len(),
    ;

    /// The value of each slot, in order.
    fn slots(&self) -> (r: Vec<Option<bool>>)
        ensures
            r@ == self.values(),
    ;
}

/// An [`Assignment`] that keeps one slot per atom in a vector.
#[derive(Debug)]
pub struct AssignmentBasic {
    gamma: Vec<Option<bool>>,
}

impl View for AssignmentBasic {
    type V = Seq<Option<bool>>;

    closed spec fn view(&self) -> Seq<Option<bool>> {
        self.gamma@
    }
}

impl Clone for AssignmentBasic {
    fn clone(&self) -> (r: Self)
        ensures
            r@ == self@,
            r.values() == self.values(),
    {
        let mut gamma: Vec<Option<bool>> = Vec::new();
        let n = self.gamma.len();
        for i in 0..n
            invariant
                n == self.gamma@.len(),
                gamma@ == self.gamma@.take(i as int),
        {
            gamma.push(self.gamma[i]);
            assert(gamma@ =~= self.gamma@.take(i + 1));
        }
        assert(gamma@ =~= self.gamma@);
        AssignmentBasic { gamma }
    }
}

impl Assignment for AssignmentBasic {
    closed spec fn values(&self) -> Seq<Option<bool>> {
        self.gamma@
    }

    fn new(size: usize) -> (r: Self) {
        let mut gamma: Vec<Option<bool>> = Vec::new();
        for i in 0..size
            invariant
                gamma@ == Seq::new(i as nat, |k: int| None::<bool>),
        {
            gamma.push(None);
            assert(gamma@ =~= Seq::new((i + 1) as nat, |k: int| None::<bool>));
        }
        let r = AssignmentBasic { gamma };
        assert(r.values() =~= Seq::new(size as nat, |i: int| None::<bool>));
        r
    }

    fn get(&self, atom: Atom) -> (r: Option<bool>) {
        let idx = get_idx_from_atom(atom);
        self.gamma[idx]
    }

    fn is_set(&self, atom: Atom) -> (r: bool) {
        let idx = get_idx_from_atom(atom);
        if idx < self.gamma.len() {
            self.gamma[idx].is_some()
        } else {
            false
        }
    }

    fn set(&mut self, atom: Atom, value: bool) {
        let idx = get_idx_from_atom(atom);
        self.gamma.set(idx, Some(value));
    }

    fn clear(&mut self, atom: Atom) {
        let idx = get_idx_from_atom(atom);
        self.gamma.set(idx, None);
    }

    fn as_formatted_str(&self) -> (r: String) {
        let mut ss = String::new();
        let n = self.gamma.len();
        for i in 0..n
            invariant
                n == self.gamma@.len(),
                ss@ == self.gamma@.take(i as int).map_values(|v: Option<bool>| slot_char(v)),
        {
            proof {
                reveal_strlit("1");
                reveal_strlit("0");
                reveal_strlit("-");
            }
            match self.gamma[i] {
                Some(true) => ss.append("1"),
                Some(false) => ss.append("0"),
                None => ss.append("-"),
            }
            assert(ss@ =~= self.gamma@.take(i + 1).map_values(|v: Option<bool>| slot_char(v)));
        }
        assert(self.gamma@.take(n as int) =~= self.gamma@);
        ss
    }

    fn get_num_atoms(&self) -> (r: usize) {
        self.gamma.len()
    }

    fn slots(&self) -> (r: Vec<Option<bool>>) {
        self.clone().gamma
    }
}

/// What an assignment's operations do to its slots, read back: a value that
/// was set is got again, a cleared atom is open, and no other slot changes.
pub proof fn lemma_set_get_clear(g: Seq<Option<bool>>, atom: nat, v: bool)
    requires
        1 <= atom <= g.len(),
    ensures
        g.update(atom - 1, Some(v))[atom - 1] == Some(v),
        g.update(atom - 1, Some(v)).len() == g.len(),
        g.update(atom - 1, None)[atom - 1] is None,
        g.update(atom - 1, None).len() == g.len(),
        forall|j: int|
            0 <= j < g.len() && j != atom - 1 ==> #[trigger] g.update(atom - 1, Some(v))[j] == g[j]
                && g.update(atom - 1, None)[j] == g[j],
{
}

impl AssignmentBasic {
    /// The assigned literals between brackets, separated by commas, such as
    /// `[1,\u{00AC}3]`.
    pub fn to_string(&self) -> (r: String)
        ensures
            r@ == assignment_text(self@),
    {
        let mut parts: Vec<Vec<char>> = Vec::new();
        let n = self.gamma.len();
        for i in 0..n
            invariant
                n == self.gamma@.len(),
                char_vec_views(parts@) == assigned_texts(self.gamma@.take(i as int)),
        {
            let ghost g = self.gamma@.take(i + 1);
            assert(g.drop_last() =~= self.gamma@.take(i as int));
            match self.gamma[i] {
                Some(t) => {
                    let ghost pp = parts@;
                    let a = get_atom_from_idx(i);
                    parts.push(literal_chars(a, t));
                    assert(char_vec_views(parts@) =~= char_vec_views(pp).push(
                        literal_text(a@, t),
                    ));
                },
                None => {},
            }
        }
        assert(self.gamma@.take(n as int) =~= self.gamma@);
        let mut sep: Vec<char> = Vec::new();
        sep.push(',');
        let mut body = join_chars(parts, &sep);
        let mut r: Vec<char> = Vec::new();
        r.push('[');
        r.append(&mut body);
        r.push(']');
        assert(sep@ =~= seq![',']);
        assert(r@ =~= assignment_text(self@));
        string_from_chars(r.as_slice())
    }

    /// The values of an assignment are its view.
    pub proof fn lemma_values_view(&self)
        ensures
            self.values() == self@,
    {
    }
}

// -------------------------------
// Clause
// -------------------------------

/// A clause that can hand out its literals.
pub trait ClauseDisjunctive: Sized {
    /// The literals of the clause: an atom and the truth value it needs.
    spec fn literal_seq(&self) -> Seq<(Atom, bool)>;

    /// A copy of the literals of the clause, in order.
    fn iter_copied(&self) -> (r: Vec<(Atom, bool)>)
        ensures
            r@ == self.literal_seq(),
    ;
}

/// A disjunction of literals, kept as two parallel vectors.
#[derive(Clone, Debug)]
pub struct ClauseDisjunctiveBasic {
    /// Raw propositional atoms.
    pub atoms: Vec<Atom>,
    /// Truth value required by the atom at the same position for the clause
    /// to be satisfied.
    pub truthiness: Vec<bool>,
}

impl ClauseDisjunctiveBasic {
    /// Both vectors have one entry per literal.
    pub open spec fn wf(&self) -> bool {
        self.atoms@.len() == self.truthiness@.len()
    }

    /// The literals of the clause.
    pub open spec fn literals(&self) -> Seq<(Atom, bool)> {
        Seq::new(self.atoms@.len(), |j: int| (self.atoms@[j], self.truthiness@[j]))
    }

    /// The clause with these atoms and truth values.
    pub fn new(atoms: Vec<Atom>, truthiness: Vec<bool>) -> (r: Self)
        requires
            atoms@.len() == truthiness@.len(),
        ensures
            r.atoms@ == atoms@,
            r.truthiness@ == truthiness@,
            r.wf(),
    {
        Self { atoms, truthiness }
    }

    /// The clause with these literals, in order.
    pub fn from_literals(lits: &Vec<(Atom, bool)>) -> (r: Self)
        ensures
            r.wf(),
            r.literals() == lits@,
    {
        let mut atoms: Vec<Atom> = Vec::new();
        let mut truthiness: Vec<bool> = Vec::new();
        let n = lits.len();
        for j in 0..n
            invariant
                n == lits@.len(),
                atoms@.len() == j,
                truthiness@.len() == j,
                forall|k: int| 0 <= k < j ==> (#[trigger] atoms@[k], truthiness@[k]) == lits@[k],
        {
            let (a, t) = lits[j];
            atoms.push(a);
            truthiness.push(t);
        }
        let r = Self::new(atoms, truthiness);
        assert(r.literals() =~= lits@);
        r
    }

    /// The literals of the clause, in order.
    pub fn literals_vec(&self) -> (r: Vec<(Atom, bool)>)
        requires
            self.wf(),
        ensures
            r@ == self.literals(),
    {
        let mut r: Vec<(Atom, bool)> = Vec::new();
        let n = self.atoms.len();
        for j in 0..n
            invariant
                n == self.atoms@.len(),
                self.wf(),
                r@ == self.literals().take(j as int),
        {
            r.push((self.atoms[j], self.truthiness[j]));
            assert(r@ =~= self.literals().take(j + 1));
        }
        assert(r@ =~= self.literals());
        r
    }
}

/// The texts of a clause's literals, in order.
pub open spec fn clause_literal_texts(c: ClauseDisjunctiveBasic) -> Seq<Seq<char>> {
    c.literal_seq().map_values(|l: (Atom, bool)| literal_text(l.0@, l.1))
}

/// The text of a clause: its literals separated by the disjunction sign.
pub open spec fn clause_text(c: ClauseDisjunctiveBasic) -> Seq<char> {
    join(clause_literal_texts(c), seq!['\u{2228}'])
}

impl ClauseDisjunctiveBasic {
    /// The literals separated by the disjunction sign, such as
    /// `1\u{2228}\u{00AC}2`. Every atom needs its truth value.
    pub fn to_string(&self) -> (r: String)
        requires
            self.atoms@.len() <= self.truthiness@.len(),
        ensures
            r@ == clause_text(*self),
    {
        let r = self.text_chars();
        string_from_chars(r.as_slice())
    }

    /// The characters of [`ClauseDisjunctiveBasic::to_string`].
    fn text_chars(&self) -> (r: Vec<char>)
        requires
            self.atoms@.len() <= self.truthiness@.len(),
        ensures
            r@ == clause_text(*self),
    {
        let lits = self.iter_copied();
        let mut parts: Vec<Vec<char>> = Vec::new();
        let n = lits.len();
        for j in 0..n
            invariant
                n == lits@.len(),
                lits@ == self.literal_seq(),
                char_vec_views(parts@) == clause_literal_texts(*self).take(j as int),
        {
            let (a, t) = lits[j];
            let ghost pp = parts@;
            parts.push(literal_chars(a, t));
            assert(char_vec_views(parts@) =~= char_vec_views(pp).push(literal_text(a@, t)));
            assert(clause_literal_texts(*self).take(j + 1) =~= clause_literal_texts(*self).take(
                j as int,
            ).push(literal_text(a@, t)));
        }
        assert(clause_literal_texts(*self).take(n as int) =~= clause_literal_texts(*self));
        let mut sep: Vec<char> = Vec::new();
        sep.push('\u{2228}');
        assert(sep@ =~= seq!['\u{2228}']);
        join_chars(parts, &sep)
    }
}

impl ClauseDisjunctive for ClauseDisjunctiveBasic {
    open spec fn literal_seq(&self) -> Seq<(Atom, bool)> {
        Seq::new(
            if self.atoms@.len() <= self.truthiness@.len() {
                self.atoms@.len()
            } else {
                self.truthiness@.len()
            },
            |j: int| (self.atoms@[j], self.truthiness@[j]),
        )
    }

    fn iter_copied(&self) -> (r: Vec<(Atom, bool)>) {
        let n = if self.atoms.len() <= self.truthiness.len() {
            self.atoms.len()
        } else {
            self.truthiness.len()
        };
        let mut r: Vec<(Atom, bool)> = Vec::new();
        for j in 0..n
            invariant
                n == self.literal_seq().len(),
                n <= self.atoms@.len(),
                n <= self.truthiness@.len(),
                r@ == self.literal_seq().take(j as int),
        {
            r.push((self.atoms[j], self.truthiness[j]));
            assert(r@ =~= self.literal_seq().take(j + 1));
        }
        assert(r@ =~= self.literal_seq());
        r
    }
}

// -------------------------------
// Formula
// -------------------------------

/// A formula that can hand out its clauses.
pub trait FormulaConjunctive: Sized {
    /// The kind of clause the formula is made of.
    type Clause: ClauseDisjunctive;

    /// The clauses of the formula.
    spec fn clause_seq(&self) -> Seq<Self::Clause>;

    /// The clauses of the formula, in order.
    fn iter(&self) -> (r: &Vec<Self::Clause>)
        ensures
            r@ == self.clause_seq(),
    ;
}

/// A conjunction of clauses.
#[derive(Clone, Debug)]
pub struct FormulaConjunctiveBasic {
    /// The clauses, all of which must hold.
    pub clauses: Vec<ClauseDisjunctiveBasic>,
}

impl FormulaConjunctiveBasic {
    /// Every clause is well formed.
    pub open spec fn wf(&self) -> bool {
        forall|i: int| 0 <= i < self.clauses@.len() ==> (#[trigger] self.clauses@[i]).wf()
    }

    /// The literals of every clause, clause by clause.
    pub open spec fn literal_lists(&self) -> Seq<Seq<(Atom, bool)>> {
        self.clauses@.map_values(|c: ClauseDisjunctiveBasic| c.literals())
    }

    /// The formula whose clauses have these literals.
    pub fn new(it: Vec<Vec<(Atom, bool)>>) -> (r: Self)
        ensures
            r.wf(),
            r.literal_lists() == it@.map_values(|c: Vec<(Atom, bool)>| c@),
    {
        let mut clauses: Vec<ClauseDisjunctiveBasic> = Vec::new();
        let n = it.len();
        for i in 0..n
            invariant
                n == it@.len(),
                clauses@.len() == i,
                forall|k: int| 0 <= k < i ==> (#[trigger] clauses@[k]).wf(),
                forall|k: int| 0 <= k < i ==> (#[trigger] clauses@[k]).literals() == it@[k]@,
        {
            let c = ClauseDisjunctiveBasic::from_literals(&it[i]);
            clauses.push(c);
        }
        let r = Self { clauses };
        assert(r.literal_lists() =~= it@.map_values(|c: Vec<(Atom, bool)>| c@));
        r
    }

    /// The formula made of these clauses.
    pub fn from_clauses(clauses: Vec<ClauseDisjunctiveBasic>) -> (r: Self)
        ensures
            r.clauses@ == clauses@,
    {
        Self { clauses }
    }
}

/// The texts of a formula's clauses, each between parentheses.
pub open spec fn clause_texts(f: FormulaConjunctiveBasic) -> Seq<Seq<char>> {
    f.clauses@.map_values(|c: ClauseDisjunctiveBasic| seq!['('] + clause_text(c) + seq![')'])
}

/// The text of a formula: its clauses between parentheses, separated by the
/// conjunction sign.
pub open spec fn formula_text(f: FormulaConjunctiveBasic) -> Seq<char> {
    join(clause_texts(f), seq!['\u{2227}'])
}

impl FormulaConjunctiveBasic {
    /// The clauses between parentheses, separated by the conjunction sign,
    /// such as `(1\u{2228}2)\u{2227}(\u{00AC}1)`. Every atom needs its truth
    /// value.
    pub fn to_string(&self) -> (r: String)
        requires
            forall|i: int|
                0 <= i < self.clauses@.len() ==> (#[trigger] self.clauses@[i]).atoms@.len()
                    <= self.clauses@[i].truthiness@.len(),
        ensures
            r@ == formula_text(*self),
    {
        let mut parts: Vec<Vec<char>> = Vec::new();
        let n = self.clauses.len();
        for i in 0..n
            invariant
                n == self.clauses@.len(),
                forall|k: int|
                    0 <= k < self.clauses@.len() ==> (#[trigger] self.clauses@[k]).atoms@.len()
                        <= self.clauses@[k].truthiness@.len(),
                char_vec_views(parts@) == clause_texts(*self).take(i as int),
        {
            let mut body = self.clauses[i].text_chars();
            let mut piece: Vec<char> = Vec::new();
            piece.push('(');
            piece.append(&mut body);
            piece.push(')');
            let ghost pp = parts@;
            let ghost txt = seq!['('] + clause_text(self.clauses@[i as int]) + seq![')'];
            assert(piece@ =~= txt);
            parts.push(piece);
            assert(char_vec_views(parts@) =~= char_vec_views(pp).push(txt));
            assert(clause_texts(*self).take(i + 1) =~= clause_texts(*self).take(i as int).push(
                txt,
            ));
        }
        assert(clause_texts(*self).take(n as int) =~= clause_texts(*self));
        let mut sep: Vec<char> = Vec::new();
        sep.push('\u{2227}');
        assert(sep@ =~= seq!['\u{2227}']);
        let r = join_chars(parts, &sep);
        string_from_chars(r.as_slice())
    }
}

impl FormulaConjunctive for FormulaConjunctiveBasic {
    type Clause = ClauseDisjunctiveBasic;

    open spec fn clause_seq(&self) -> Seq<ClauseDisjunctiveBasic> {
        self.clauses@
    }

    fn iter(&self) -> (r: &Vec<ClauseDisjunctiveBasic>) {
        &self.clauses
    }
}

} // verus!
