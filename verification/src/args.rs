//! What the command line front end reports back.
use vstd::prelude::*;

verus! {

/// The command line of the solver: one action on one file.
#[derive(Debug, Clone)]
pub struct Cli {
    /// What to do.
    pub solver_action: SolverAction,
}

/// The actions the solver offers, each on the file at the given path.
#[derive(Debug, Clone)]
pub enum SolverAction {
    /// Decide whether the formula in the file is satisfiable.
    Sat { file: String },
    /// Rewrite the formula in the file into a normal form.
    Normalize { file: String },
    /// Convert the formula in the file into another format.
    Cast { file: String },
}

/// How a run of the solver ended.
#[derive(Clone, Copy, Debug, PartialEq, Eq, Structural)]
pub enum SolverExitType {
    /// The run ended without a satisfiability verdict.
    Success,
    /// The formula is satisfiable.
    Sat,
    /// The formula is unsatisfiable.
    Unsat,
}

impl SolverExitType {
    /// The process exit code of the outcome, as DIMACS solvers report it:
    /// `0`, `10` for satisfiable and `20` for unsatisfiable.
    pub fn exit_code(self) -> (r: u8)
        ensures
            r == match self {
                SolverExitType::Success => 0u8,
                SolverExitType::Sat => 10u8,
                SolverExitType::Unsat => 20u8,
            },
    {
        match self {
            SolverExitType::Success => 0,
            SolverExitType::Sat => 10,
            SolverExitType::Unsat => 20,
        }
    }
}

} // verus!
