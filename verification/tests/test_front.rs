use sss::args::SolverExitType;
use sss::cli::{parse_args, DecisionProblemFormat, DecisionProblemType, SssCommand};
use sss::primitives::{Atom, Symbol};
use sss::solver::sat;
use sss::structures::{
    get_atom_from_idx, get_idx_from_atom, Assignment, AssignmentBasic, ClauseDisjunctiveBasic,
    FormulaConjunctiveBasic,
};
use sss::util::AnsiColor;
use sss::{as_colored, CliError};

fn args(a: &[&str]) -> Vec<String> {
    a.iter().map(|s| s.to_string()).collect()
}

// --------------------------------
// Command line
// --------------------------------

#[test]
fn parse_args_decide() {
    match parse_args(&args(&["--decide", "sat", "f.fol"])) {
        Ok(SssCommand::Decide { problem_type, fp }) => {
            assert_eq!(problem_type, DecisionProblemType::Sat);
            assert_eq!(fp, "f.fol");
        }
        other => panic!("unexpected {:?}", other),
    }
    match parse_args(&args(&["-d", "stcon", "g"])) {
        Ok(SssCommand::Decide { problem_type, .. }) => {
            assert_eq!(problem_type, DecisionProblemType::Stcon)
        }
        other => panic!("unexpected {:?}", other),
    }
}

#[test]
fn parse_args_cast() {
    match parse_args(&args(&["-c", "sfol", "a", "dimacs", "b"])) {
        Ok(SssCommand::Cast { fmt_from, fp_from, fmt_to, fp_to }) => {
            assert_eq!(fmt_from, DecisionProblemFormat::Sfol);
            assert_eq!(fp_from, "a");
            assert_eq!(fmt_to, DecisionProblemFormat::Dimacs);
            assert_eq!(fp_to, "b");
        }
        other => panic!("unexpected {:?}", other),
    }
}

fn err_of(a: &[&str]) -> String {
    match parse_args(&args(a)) {
        Err(e) => e,
        Ok(c) => panic!("unexpected {:?}", c),
    }
}

#[test]
fn parse_args_errors() {
    assert_eq!(err_of(&[]), "no arguments provided");
    assert_eq!(err_of(&["--frobnicate"]), "unknown command --frobnicate");
    assert_eq!(
        err_of(&["--decide"]),
        "used decide wrong, usage: --decide [problem type] [file path]"
    );
    assert_eq!(
        err_of(&["--decide", "sat"]),
        "used decide wrong, usage: --decide [problem type] [file path]"
    );
    assert_eq!(err_of(&["--decide", "3sat"]), "unknown decision problem: 3sat");
    assert_eq!(err_of(&["-d", "tqbf", "f", "g"]), "unexpected argument g");
    assert_eq!(
        err_of(&["--cast", "sfol", "a", "dimacs"]),
        "used cast wrong, usage: --cast [fmt from] [fp from] [fmt to] [fp to]"
    );
    assert_eq!(err_of(&["--cast", "xml"]), "unknown format : xml");
    assert_eq!(err_of(&["--cast", "sfol", "a", "xml", "b"]), "unknown format : xml");
    assert_eq!(err_of(&["-c", "sfol", "a", "sfol", "b", "c"]), "unexpected argument c");
}

#[test]
fn names_parse() {
    assert_eq!("tqbf".parse::<DecisionProblemType>(), Ok(DecisionProblemType::Tqbf));
    assert_eq!(
        "SAT".parse::<DecisionProblemType>(),
        Err("unknown decision problem: SAT".to_string())
    );
    assert_eq!("dimacs".parse::<DecisionProblemFormat>(), Ok(DecisionProblemFormat::Dimacs));
    assert_eq!(
        "cnf".parse::<DecisionProblemFormat>(),
        Err("unknown format : cnf".to_string())
    );
}

#[test]
fn error_messages() {
    assert_eq!(CliError::NoInputFile.message(), "no input file provided");
    assert_eq!(CliError::UnknownFlag("-x".to_string()).message(), "unknown flag: -x");
    assert_eq!(
        CliError::ParsingError("bad".to_string()).message(),
        "parsing error: bad"
    );
}

#[test]
fn exit_codes() {
    assert_eq!(SolverExitType::Success.exit_code(), 0);
    assert_eq!(SolverExitType::Sat.exit_code(), 10);
    assert_eq!(SolverExitType::Unsat.exit_code(), 20);
}

#[test]
fn sat_on_dimacs_text() {
    assert_eq!(sat("p cnf 1 1\n1 0\n"), Some(SolverExitType::Sat));
    assert_eq!(sat("p cnf 1 2\n1 0\n-1 0\n"), Some(SolverExitType::Unsat));
    assert_eq!(sat(""), Some(SolverExitType::Sat));
    assert_eq!(sat("0\n"), Some(SolverExitType::Unsat));
    assert_eq!(sat("-2147483648 0\n"), None);
}

// --------------------------------
// Colours and display
// --------------------------------

#[test]
fn colours() {
    assert_eq!(as_colored("x", AnsiColor::Red), "\x1b[31mx\x1b[0m");
    assert_eq!(as_colored("", AnsiColor::Green), "\x1b[32m\x1b[0m");
    assert_eq!(AnsiColor::Yellow.code(), "\x1b[33m");
    assert_eq!(AnsiColor::Blue.code(), "\x1b[34m");
    assert_eq!(AnsiColor::Grey.code(), "\x1b[37m");
    assert_eq!(AnsiColor::Reset.code(), "\x1b[0m");
}

#[test]
fn atom_display() {
    assert_eq!(Atom::from(0).to_string(), "0");
    assert_eq!(Atom::from(7).to_string(), "7");
    assert_eq!(Atom::from(4159).to_string(), "4159");
    assert_eq!(Atom::max().to_string(), "4294967295");
}

#[test]
fn container_display() {
    let mut gamma = AssignmentBasic::new(3);
    assert_eq!(gamma.to_string(), "[]");
    gamma.set(Atom::from(1), true);
    gamma.set(Atom::from(3), false);
    assert_eq!(gamma.to_string(), "[1,\u{00AC}3]");

    let clause = ClauseDisjunctiveBasic::new(vec![Atom::from(1), Atom::from(2)], vec![true, false]);
    assert_eq!(clause.to_string(), "1\u{2228}\u{00AC}2");

    let phi = FormulaConjunctiveBasic::new(vec![
        vec![(Atom::from(1), true), (Atom::from(2), false)],
        vec![(Atom::from(3), true)],
    ]);
    assert_eq!(phi.to_string(), "(1\u{2228}\u{00AC}2)\u{2227}(3)");
    assert_eq!(FormulaConjunctiveBasic::new(vec![]).to_string(), "");
    assert_eq!(FormulaConjunctiveBasic::new(vec![vec![]]).to_string(), "()");
}

// --------------------------------
// Primitives
// --------------------------------

#[test]
fn atom_arithmetic_and_indices() {
    assert_eq!(Atom::from(2) + Atom::from(3), Atom::from(5));
    assert_eq!(usize::from(Atom::from(7)), 7);
    assert_eq!(Atom::from(9).value(), 9);
    assert_eq!(Atom::zero(), Atom::from(0));
    assert_eq!(Atom::one(), Atom::from(1));
    assert_eq!(get_idx_from_atom(Atom::from(1)), 0);
    assert_eq!(get_idx_from_atom(Atom::from(10)), 9);
    assert_eq!(get_atom_from_idx(0), Atom::from(1));
    assert_eq!(get_atom_from_idx(get_idx_from_atom(Atom::from(42))), Atom::from(42));
}

#[test]
fn symbol_keeps_bytes() {
    let bytes = [7u8; 16];
    let s = Symbol::from(bytes);
    assert_eq!(s.value(), bytes);
    assert_eq!(s, Symbol::from([7u8; 16]));
}
