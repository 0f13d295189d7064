//! What a CNF formula means: partial and total assignments, satisfaction,
//! and the facts about them that the decision procedure rests on.
use vstd::prelude::*;
use crate::primitives::Atom;
use crate::structures::{ClauseDisjunctiveBasic, FormulaConjunctiveBasic};

verus! {

/// The literal `(a, t)` holds under the partial assignment `g`, whose slot
/// `k` holds the value of atom `k + 1`.
pub open spec fn lit_holds(g: Seq<Option<bool>>, a: Atom, t: bool) -> bool {
    1 <= a@ <= g.len() && g[a@ - 1] == Some(t)
}

/// Atom `a` has a slot in `g` and that slot is still open.
pub open spec fn lit_open(g: Seq<Option<bool>>, a: Atom) -> bool {
    1 <= a@ <= g.len() && g[a@ - 1] is None
}

/// Some literal of clause `c` holds under `g`.
pub open spec fn clause_met(c: ClauseDisjunctiveBasic, g: Seq<Option<bool>>) -> bool {
    exists|j: int|
        0 <= j < c.atoms@.len() && #[trigger] lit_holds(g, c.atoms@[j], c.truthiness@[j])
}

/// Some literal of clause `c` has an open atom under `g`.
pub open spec fn clause_has_open(c: ClauseDisjunctiveBasic, g: Seq<Option<bool>>) -> bool {
    exists|j: int| 0 <= j < c.atoms@.len() && #[trigger] lit_open(g, c.atoms@[j])
}

/// Two different literals of clause `c` have open atoms under `g`, so the
/// clause is no unit clause.
pub open spec fn clause_has_two_open(c: ClauseDisjunctiveBasic, g: Seq<Option<bool>>) -> bool {
    exists|j: int, k: int|
        #![trigger lit_open(g, c.atoms@[j]), lit_open(g, c.atoms@[k])]
        0 <= j < k < c.atoms@.len() && lit_open(g, c.atoms@[j]) && lit_open(g, c.atoms@[k])
}

/// Every literal of clause `c` is false under `g`: its atom has the other
/// value. An empty clause is falsified.
pub open spec fn clause_falsified(c: ClauseDisjunctiveBasic, g: Seq<Option<bool>>) -> bool {
    forall|j: int| 0 <= j < c.atoms@.len() ==> lit_holds(g, #[trigger] c.atoms@[j], !c.truthiness@[j])
}

/// Every clause of `phi` is met under `g`.
pub open spec fn formula_met(phi: FormulaConjunctiveBasic, g: Seq<Option<bool>>) -> bool {
    forall|i: int| 0 <= i < phi.clauses@.len() ==> #[trigger] clause_met(phi.clauses@[i], g)
}

/// A total assignment seen as a partial one with every slot filled.
pub open spec fn total(s: Seq<bool>) -> Seq<Option<bool>> {
    s.map_values(|b: bool| Some(b))
}

/// The total assignment `s` (slot `k` is atom `k + 1`) satisfies `phi`.
pub open spec fn models(s: Seq<bool>, phi: FormulaConjunctiveBasic) -> bool {
    formula_met(phi, total(s))
}

/// Some total assignment satisfies `phi`.
pub open spec fn satisfiable(phi: FormulaConjunctiveBasic) -> bool {
    exists|s: Seq<bool>| #[trigger] models(s, phi)
}

/// The total assignment `s` agrees with every value that `g` fixes, and
/// has as many slots.
pub open spec fn extends(s: Seq<bool>, g: Seq<Option<bool>>) -> bool {
    &&& s.len() == g.len()
    &&& forall|k: int| 0 <= k < g.len() && (#[trigger] g[k]) is Some ==> g[k] == Some(s[k])
}

/// `g2` keeps every value of `g1` and has as many slots.
pub open spec fn refines(g2: Seq<Option<bool>>, g1: Seq<Option<bool>>) -> bool {
    &&& g2.len() == g1.len()
    &&& forall|k: int| 0 <= k < g1.len() && (#[trigger] g1[k]) is Some ==> g2[k] == g1[k]
}

/// Some total assignment that extends `g` satisfies `phi`.
pub open spec fn extendable(phi: FormulaConjunctiveBasic, g: Seq<Option<bool>>) -> bool {
    exists|s: Seq<bool>| extends(s, g) && #[trigger] models(s, phi)
}

/// The number of open slots of `g`.
pub open spec fn count_open(g: Seq<Option<bool>>) -> nat
    decreases g.len(),
{
    if g.len() == 0 {
        0
    } else {
        count_open(g.drop_last()) + if g.last() is None {
            1nat
        } else {
            0nat
        }
    }
}

/// Every atom of `phi` has a slot among `1..=n`.
pub open spec fn atoms_within(phi: FormulaConjunctiveBasic, n: nat) -> bool {
    forall|i: int, j: int|
        0 <= i < phi.clauses@.len() && 0 <= j < phi.clauses@[i].atoms@.len() ==> 1
            <= (#[trigger] phi.clauses@[i].atoms@[j])@ <= n
}

/// Atom `a` occurs in some clause of `phi`.
pub open spec fn occurs(phi: FormulaConjunctiveBasic, a: Atom) -> bool {
    exists|i: int, j: int|
        0 <= i < phi.clauses@.len() && 0 <= j < phi.clauses@[i].atoms@.len()
            && #[trigger] phi.clauses@[i].atoms@[j] == a
}

/// The atoms that occur in `phi`.
pub open spec fn atom_set(phi: FormulaConjunctiveBasic) -> Set<Atom> {
    Set::new(|a: Atom| occurs(phi, a))
}

/// The atoms of `phi` are numbered `1..=n` with `n` the number of distinct
/// atoms, as the solver needs them to be.
pub open spec fn atoms_numbered_densely(phi: FormulaConjunctiveBasic) -> bool {
    forall|a: Atom| #[trigger] occurs(phi, a) ==> 1 <= a@ <= atom_set(phi).len()
}

/// `g` with every open slot filled with `false`.
pub open spec fn complete(g: Seq<Option<bool>>) -> Seq<bool> {
    Seq::new(
        g.len(),
        |k: int|
            match g[k] {
                Some(b) => b,
                None => false,
            },
    )
}

/// Filling the open slots of `g` gives a total assignment that extends it.
pub proof fn lemma_complete_extends(g: Seq<Option<bool>>)
    ensures
        extends(complete(g), g),
{
}

/// A total assignment that extends `g` refines it.
pub proof fn lemma_extends_refines(s: Seq<bool>, g: Seq<Option<bool>>)
    requires
        extends(s, g),
    ensures
        refines(total(s), g),
{
    assert forall|k: int| 0 <= k < g.len() && (#[trigger] g[k]) is Some implies total(s)[k]
        == g[k] by {
    }
}

/// Filling more slots keeps every met clause met.
pub proof fn lemma_met_monotone(
    phi: FormulaConjunctiveBasic,
    g1: Seq<Option<bool>>,
    g2: Seq<Option<bool>>,
)
    requires
        refines(g2, g1),
        formula_met(phi, g1),
    ensures
        formula_met(phi, g2),
{
    assert forall|i: int| 0 <= i < phi.clauses@.len() implies #[trigger] clause_met(
        phi.clauses@[i],
        g2,
    ) by {
        let c = phi.clauses@[i];
        assert(clause_met(c, g1));
        let j = choose|j: int|
            0 <= j < c.atoms@.len() && #[trigger] lit_holds(g1, c.atoms@[j], c.truthiness@[j]);
        assert(g1[c.atoms@[j]@ - 1] is Some);
        assert(lit_holds(g2, c.atoms@[j], c.truthiness@[j]));
    }
}

/// A partial assignment under which every clause is met extends to a model.
pub proof fn lemma_met_extendable(phi: FormulaConjunctiveBasic, g: Seq<Option<bool>>)
    requires
        formula_met(phi, g),
    ensures
        extendable(phi, g),
{
    let s = complete(g);
    lemma_complete_extends(g);
    lemma_extends_refines(s, g);
    lemma_met_monotone(phi, g, total(s));
    assert(models(s, phi));
}

/// Refining never opens a slot, so it never adds open slots; fixing an
/// open slot removes one.
pub proof fn lemma_count_open_refines(g1: Seq<Option<bool>>, g2: Seq<Option<bool>>, k: int)
    requires
        refines(g2, g1),
    ensures
        count_open(g2) <= count_open(g1),
        0 <= k < g1.len() && g1[k] is None && g2[k] is Some ==> count_open(g2) < count_open(g1),
    decreases g1.len(),
{
    if g1.len() > 0 {
        let n = g1.len() - 1;
        assert(refines(g2.drop_last(), g1.drop_last())) by {
            assert forall|m: int|
                0 <= m < g1.drop_last().len() && (#[trigger] g1.drop_last()[m]) is Some implies g2.drop_last()[m]
                == g1.drop_last()[m] by {
                assert(g1[m] is Some);
            }
        }
        lemma_count_open_refines(g1.drop_last(), g2.drop_last(), k);
        if g1[n] is Some {
            assert(g2[n] == g1[n]);
        }
    }
}

/// Whether some model extends `g` is decided by the two ways of fixing an
/// open slot `k`.
pub proof fn lemma_split(phi: FormulaConjunctiveBasic, g: Seq<Option<bool>>, k: int)
    requires
        0 <= k < g.len(),
        g[k] is None,
    ensures
        extendable(phi, g) <==> extendable(phi, g.update(k, Some(true))) || extendable(
            phi,
            g.update(k, Some(false)),
        ),
{
    if extendable(phi, g) {
        let s = choose|s: Seq<bool>| extends(s, g) && #[trigger] models(s, phi);
        let gk = g.update(k, Some(s[k]));
        assert(extends(s, gk)) by {
            assert forall|m: int| 0 <= m < gk.len() && (#[trigger] gk[m]) is Some implies gk[m]
                == Some(s[m]) by {
                if m != k {
                    assert(g[m] is Some);
                }
            }
        }
        if s[k] {
            assert(extendable(phi, g.update(k, Some(true))));
        } else {
            assert(extendable(phi, g.update(k, Some(false))));
        }
    }
    if extendable(phi, g.update(k, Some(true))) {
        let s = choose|s: Seq<bool>|
            extends(s, g.update(k, Some(true))) && #[trigger] models(s, phi);
        assert(extends(s, g)) by {
            assert forall|m: int| 0 <= m < g.len() && (#[trigger] g[m]) is Some implies g[m]
                == Some(s[m]) by {
                assert(g.update(k, Some(true))[m] == g[m]);
            }
        }
    }
    if extendable(phi, g.update(k, Some(false))) {
        let s = choose|s: Seq<bool>|
            extends(s, g.update(k, Some(false))) && #[trigger] models(s, phi);
        assert(extends(s, g)) by {
            assert forall|m: int| 0 <= m < g.len() && (#[trigger] g[m]) is Some implies g[m]
                == Some(s[m]) by {
                assert(g.update(k, Some(false))[m] == g[m]);
            }
        }
    }
}

} // verus!
