//! The decision problems that the command line offers, on text that the
//! caller has read.
use vstd::prelude::*;
use crate::args::SolverExitType;
use crate::parser::{
    dimacs_clauses, dimacs_satisfiable, lemma_translation_equisatisfiable,
    lemma_translation_is_sat_ready, literals_valid, parse_dimacs,
};
use crate::sat::SatFormula;

verus! {

/// Decides the DIMACS formula in `content`: `Sat` when some valuation of its
/// variables satisfies every clause, `Unsat` when none does, and `None`
/// when a clause holds `i32::MIN`, which has no variable.
pub fn sat(content: &str) -> (r: Option<SolverExitType>)
    ensures
        r is None <==> !literals_valid(dimacs_clauses(content@)),
        r == Some(SolverExitType::Sat) <==> literals_valid(dimacs_clauses(content@))
            && dimacs_satisfiable(dimacs_clauses(content@)),
        r == Some(SolverExitType::Unsat) <==> literals_valid(dimacs_clauses(content@))
            && !dimacs_satisfiable(dimacs_clauses(content@)),
{
    match parse_dimacs(content) {
        None => None,
        Some(formula) => {
            proof {
                lemma_translation_is_sat_ready(dimacs_clauses(content@), formula);
                lemma_translation_equisatisfiable(dimacs_clauses(content@), formula);
            }
            if formula.is_sat() {
                Some(SolverExitType::Sat)
            } else {
                Some(SolverExitType::Unsat)
            }
        },
    }
}

} // verus!
