//! Primitive values shared by the solver back end and the front ends.
use vstd::prelude::*;
use crate::text::{decimal, decimal_chars, string_from_chars};

verus! {

/// A formula of first order logic over variables of type `VarType`, whose
/// subformulas are referred to by ids of type `FormulaIdType`.
pub enum Formula<VarType, FormulaIdType> {
    /// Truth.
    Top,
    /// Falsity.
    Bot,
    /// The conjunction of two subformulas.
    Con(FormulaIdType, FormulaIdType),
    /// The disjunction of two subformulas.
    Dis(FormulaIdType, FormulaIdType),
    /// The implication from the first subformula to the second.
    Imp(FormulaIdType, FormulaIdType),
    /// The universal quantification of a variable in a subformula.
    ForAll(VarType, FormulaIdType),
    /// The existential quantification of a variable in a subformula.
    Exists(VarType, FormulaIdType),
}

/// The integer type that backs a propositional atom.
pub type AtomType = u32;

/// A propositional atom of the solver back end. Atoms are numbered from one.
#[derive(Clone, Copy, Debug, PartialEq, Eq, Structural, PartialOrd, Ord, Hash)]
pub struct Atom(AtomType);

impl View for Atom {
    type V = nat;

    closed spec fn view(&self) -> nat {
        self.0 as nat
    }
}

impl Atom {
    /// The atom numbered zero, which names no variable.
    pub fn zero() -> (r: Atom)
        ensures
            r@ == 0,
    {
        Atom(0)
    }

    /// The first atom.
    pub fn one() -> (r: Atom)
        ensures
            r@ == 1,
    {
        Atom(1)
    }

    /// The largest atom that can be represented.
    pub fn max() -> (r: Atom)
        ensures
            r@ == AtomType::MAX,
    {
        Atom(AtomType::MAX)
    }

    /// The number of this atom.
    pub fn value(self) -> (r: AtomType)
        ensures
            r as nat == self@,
    {
        self.0
    }

    /// The atom's number in decimal, as it is displayed.
    pub fn to_string(&self) -> (r: String)
        ensures
            r@ == decimal(self@),
    {
        let d = decimal_chars(self.0 as u64);
        string_from_chars(d.as_slice())
    }

    /// Every atom's number fits in the backing integer type.
    pub proof fn lemma_bounded(self)
        ensures
            self@ <= AtomType::MAX,
    {
    }

    /// Two atoms with the same number are the same atom.
    pub proof fn lemma_view_injective(self, other: Atom)
        ensures
            self@ == other@ <==> self == other,
    {
    }
}

impl From<AtomType> for Atom {
    fn from(v: AtomType) -> (r: Atom) {
        Atom(v)
    }
}

impl vstd::std_specs::convert::FromSpecImpl<AtomType> for Atom {
    open spec fn obeys_from_spec() -> bool {
        true
    }

    open spec fn from_spec(v: AtomType) -> Atom {
        Atom::spec_new(v)
    }
}

impl Atom {
    /// The atom with number `v`.
    pub closed spec fn spec_new(v: AtomType) -> Atom {
        Atom(v)
    }

    pub proof fn lemma_spec_new(v: AtomType)
        ensures
            Atom::spec_new(v)@ == v,
    {
    }
}

impl vstd::std_specs::convert::FromSpecImpl<Atom> for usize {
    open spec fn obeys_from_spec() -> bool {
        true
    }

    open spec fn from_spec(a: Atom) -> usize {
        a@ as usize
    }
}

impl From<Atom> for usize {
    fn from(a: Atom) -> (r: usize) {
        a.0 as usize
    }
}

impl core::ops::Add for Atom {
    type Output = Atom;

    fn add(self, rhs: Atom) -> (r: Atom) {
        Atom(self.0 + rhs.0)
    }
}

impl vstd::std_specs::ops::AddSpecImpl for Atom {
    open spec fn obeys_add_spec() -> bool {
        true
    }

    open spec fn add_req(self, rhs: Atom) -> bool {
        self@ + rhs@ <= AtomType::MAX
    }

    open spec fn add_spec(self, rhs: Atom) -> Atom {
        Atom::spec_new((self@ + rhs@) as AtomType)
    }
}

/// The bytes that back a symbol of the front end.
pub type SymbolType = [u8; 16];

/// A symbol of the parser front end, held as a fixed block of bytes.
#[derive(Clone, Copy, Debug, PartialEq, Eq, Hash)]
pub struct Symbol(SymbolType);

impl View for Symbol {
    type V = Seq<u8>;

    closed spec fn view(&self) -> Seq<u8> {
        self.0@
    }
}

impl Symbol {
    /// The bytes of the symbol.
    pub fn value(self) -> (r: SymbolType)
        ensures
            r@ == self@,
    {
        self.0
    }

    /// The symbol with bytes `v`.
    pub closed spec fn spec_new(v: SymbolType) -> Symbol {
        Symbol(v)
    }

    /// A symbol made of `v` has the bytes of `v`.
    pub proof fn lemma_spec_new(v: SymbolType)
        ensures
            Symbol::spec_new(v)@ == v@,
    {
    }
}

impl From<SymbolType> for Symbol {
    fn from(v: SymbolType) -> (r: Symbol) {
        Symbol(v)
    }
}

impl vstd::std_specs::convert::FromSpecImpl<SymbolType> for Symbol {
    open spec fn obeys_from_spec() -> bool {
        true
    }

    open spec fn from_spec(v: SymbolType) -> Symbol {
        Symbol::spec_new(v)
    }
}

} // verus!
