//! A small SAT solver: CNF containers, a DPLL decision procedure, a DIMACS
//! front end, an s-expression front end for first order formulas and the
//! command line model around them.

pub mod primitives;
pub mod structures;
pub mod semantics;
pub mod sat;
pub mod parser;
pub mod text;
pub mod args;
pub mod solver;
pub mod sfol;
pub mod logic;
pub mod util;
pub mod error;
pub mod cli;

pub use error::CliError;
pub use structures::{ClauseDisjunctiveBasic, FormulaConjunctiveBasic};
pub use util::as_colored;
