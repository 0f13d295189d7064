//! First order terms and formulas kept in an arena.
use vstd::prelude::*;

verus! {

/// The index of a term in a [`FolArena`].
#[derive(Default, Debug, Clone, Copy, PartialEq, Eq, Structural)]
pub struct IdTerm(pub u32);

/// The index of a formula in a [`FolArena`].
#[derive(Default, Debug, Clone, Copy, PartialEq, Eq, Structural)]
pub struct IdForm(pub u32);

/// A symbol: the numeric id of a variable or predicate.
#[derive(Default, Debug, Clone, Copy, PartialEq, Eq, Structural)]
pub struct Sym(pub u32);

impl Sym {
    /// The symbol with id `id`.
    pub fn new(id: u32) -> (r: Self)
        ensures
            r.0 == id,
    {
        Self(id)
    }
}

/// A first order term. Every symbol is bound by some quantifier or free,
/// so there are no constants, and there is no function application.
#[derive(Debug)]
pub enum Term {
    Var(Sym),
}

/// A first order formula whose parts live in a [`FolArena`].
#[derive(Debug)]
pub enum Form {
    // all evaluate to Top or Bot when closed
    Top,
    Bot,
    Equ(IdTerm, IdTerm),
    Prd(Sym, Vec<IdTerm>),
    Neg(IdForm),
    Imp(IdForm, IdForm),
    Iff(IdForm, IdForm),
    Con(Vec<IdForm>),
    Dis(Vec<IdForm>),
    Forall(Sym, IdForm),
    Exists(Sym, IdForm),
}

/// Keeps all logical objects side by side, each found by its index.
#[derive(Default, Debug)]
pub struct FolArena {
    pub terms: Vec<Term>,
    pub forms: Vec<Form>,
}

impl FolArena {
    /// An arena with no terms and no formulas.
    pub fn new() -> (r: Self)
        ensures
            r.terms@.len() == 0,
            r.forms@.len() == 0,
    {
        Self { terms: Vec::new(), forms: Vec::new() }
    }

    /// Adds `t` and gives its index: the number of terms before it, cut to
    /// 32 bits.
    pub fn new_term(&mut self, t: Term) -> (r: IdTerm)
        ensures
            r.0 == old(self).terms@.len() as u32,
            final(self).terms@ == old(self).terms@.push(t),
            final(self).forms@ == old(self).forms@,
    {
        let id = IdTerm(self.terms.len() as u32);
        self.terms.push(t);
        id
    }

    /// Adds `f` and gives its index: the number of formulas before it, cut
    /// to 32 bits.
    pub fn new_form(&mut self, f: Form) -> (r: IdForm)
        ensures
            r.0 == old(self).forms@.len() as u32,
            final(self).forms@ == old(self).forms@.push(f),
            final(self).terms@ == old(self).terms@,
    {
        let id = IdForm(self.forms.len() as u32);
        self.forms.push(f);
        id
    }

    /// The term with index `id`.
    pub fn get_term(&self, id: IdTerm) -> (r: &Term)
        requires
            id.0 < self.terms@.len(),
        ensures
            *r == self.terms@[id.0 as int],
    {
        &self.terms[id.0 as usize]
    }

    /// The formula with index `id`.
    pub fn get_form(&self, id: IdForm) -> (r: &Form)
        requires
            id.0 < self.forms@.len(),
        ensures
            *r == self.forms@[id.0 as int],
    {
        &self.forms[id.0 as usize]
    }

    /// What is added is found again under the index it was given, and the
    /// earlier entries stay where they were.
    pub proof fn lemma_new_form_get(old_arena: Seq<Form>, f: Form, id: IdForm)
        requires
            old_arena.len() < u32::MAX,
            id.0 == old_arena.len() as u32,
        ensures
            id.0 < old_arena.push(f).len(),
            old_arena.push(f)[id.0 as int] == f,
            forall|k: int| 0 <= k < old_arena.len() ==> old_arena.push(f)[k] == old_arena[k],
    {
    }

    /// A formula stays under its index whatever is added after it: every
    /// later `new_form` appends and every `new_term` leaves the formulas as
    /// they are, so after any run of such calls the formulas are the ones
    /// before `f`, then `f`, then those added later.
    pub proof fn lemma_form_kept_by_later_additions(before: Seq<Form>, f: Form, later: Seq<Form>)
        ensures
            (before.push(f) + later)[before.len() as int] == f,
            forall|k: int| 0 <= k < before.len() ==> (before.push(f) + later)[k] == before[k],
    {
    }
}

} // verus!
