use sss::parser::parse_dimacs;
use sss::primitives::Atom;
use sss::sat::{to_str_gamma, SatFormula};
use sss::structures::{Assignment, AssignmentBasic, FormulaConjunctiveBasic};

// --------------------------------
// DPLL
// --------------------------------

#[test]
fn dpll_sat_tautological_clause() {
    // (1∨¬1) — tautology, SAT without forcing any assignment
    let phi = FormulaConjunctiveBasic::new(vec![vec![(Atom::from(1), true), (Atom::from(1), false)]]);
    assert!(phi.is_sat());
}

#[test]
fn dpll_unsat_up_contradiction() {
    // (1∨2) ∧ (¬1∨2) ∧ (¬2) — UP forces 2=false then 1=true then clause 2 fails
    let phi = FormulaConjunctiveBasic::new(vec![
        vec![(Atom::from(1), true), (Atom::from(2), true)],
        vec![(Atom::from(1), false), (Atom::from(2), true)],
        vec![(Atom::from(2), false)],
    ]);
    assert!(!phi.is_sat());
}

#[test]
fn dpll_sat_3v_3c() {
    // (1∨2) ∧ (¬1∨2) ∧ (¬2∨3)
    let phi = FormulaConjunctiveBasic::new(vec![
        vec![(Atom::from(1), true), (Atom::from(2), true)],
        vec![(Atom::from(1), false), (Atom::from(2), true)],
        vec![(Atom::from(2), false), (Atom::from(3), true)],
    ]);
    assert!(phi.is_sat());
}

#[test]
fn dpll_sat_empty_formula() {
    // an empty formula is always true as its an empty conjunction
    // therefore SAT
    let phi = FormulaConjunctiveBasic::new(Vec::<Vec<(Atom, bool)>>::new());
    assert!(phi.is_sat());
}

#[test]
fn dpll_unsat_empty_clause() {
    // an empty clauses is always false as its an empty disjunction
    // therefore UNSAT
    let phi = FormulaConjunctiveBasic::new(vec![Vec::<(Atom, bool)>::new()]);
    assert!(!phi.is_sat());
}

#[test]
fn dpll_unsat_3v_3c() {
    // (1) ∧ (¬1) ∧ (2∨3)
    let phi = FormulaConjunctiveBasic::new(vec![
        vec![(Atom::from(1), true)],
        vec![(Atom::from(1), false)],
        vec![(Atom::from(2), true), (Atom::from(3), true)],
    ]);
    assert!(!phi.is_sat());
}

#[test]
fn dpll_pigeonhole_3_in_2_unsat() {
    // three pigeons, two holes: atom 2p+h-2 says pigeon p sits in hole h
    let a = |p: u32, h: u32| Atom::from(2 * p + h - 2);
    let mut clauses: Vec<Vec<(Atom, bool)>> = Vec::new();
    for p in 1..=3 {
        clauses.push(vec![(a(p, 1), true), (a(p, 2), true)]);
    }
    for h in 1..=2 {
        for p in 1..=3 {
            for q in (p + 1)..=3 {
                clauses.push(vec![(a(p, h), false), (a(q, h), false)]);
            }
        }
    }
    assert!(!FormulaConjunctiveBasic::new(clauses).is_sat());
}

#[test]
fn dpll_repeated_runs_agree() {
    // the branching atom is picked at random; the verdict never changes
    let phi = FormulaConjunctiveBasic::new(vec![
        vec![(Atom::from(1), true), (Atom::from(2), true), (Atom::from(3), true)],
        vec![(Atom::from(1), false), (Atom::from(2), false)],
        vec![(Atom::from(2), false), (Atom::from(3), false)],
        vec![(Atom::from(1), false), (Atom::from(3), false)],
    ]);
    for _ in 0..20 {
        assert!(phi.is_sat());
    }
}

// --------------------------------------------
// DIMACS to verdict
// --------------------------------------------

fn dimacs_is_sat(dimacs: &str) -> bool {
    let formula = match parse_dimacs(dimacs) {
        Some(f) => f,
        None => panic!("failed to read dimacs file {:?}", dimacs),
    };
    formula.is_sat()
}

#[test]
fn test_dimacs_sat_1() {
    let dimacs = "\
        c example of a sat formula 
        p cnf 1 1 
        1 0
    ";
    assert!(dimacs_is_sat(dimacs));
}

#[test]
fn test_dimacs_sat_2() {
    let dimacs = "\
        c example of a sat formula 
        p cnf 1 1 
        1 -1 0
    ";
    assert!(dimacs_is_sat(dimacs));
}

#[test]
fn test_dimacs_sat_3() {
    let dimacs = "\
        c example of a sat formula 
        p cnf 1 2 
        1 0
        -1 0
    ";
    assert!(!dimacs_is_sat(dimacs));
}

#[test]
fn test_dimacs_sat_4() {
    let dimacs = "\
        c example of a sat formula 
        p cnf 2 3 
        1 2 0
        -1 2 0
        -2 0
    ";
    assert!(!dimacs_is_sat(dimacs));
}

#[test]
fn test_dimacs_sat_5() {
    let dimacs = "\
        c example of a sat formula 
        p cnf 3 3 
        1 2 0
        -1 2 0
        -2 3 0 
    ";
    assert!(dimacs_is_sat(dimacs));
}

#[test]
fn test_sat_e2e_sat_1() {
    return;
}

// --------------------------------
// Assignments
// --------------------------------

#[test]
fn structures_assignment_set_get_clear() {
    let mut gamma = AssignmentBasic::new(3);
    assert_eq!(gamma.get(1u32.into()), None);
    assert!(!gamma.is_set(1u32.into()));
    gamma.set(1u32.into(), true);
    assert_eq!(gamma.get(1u32.into()), Some(true));
    assert!(gamma.is_set(1u32.into()));
    gamma.clear(1u32.into());
    assert_eq!(gamma.get(1u32.into()), None);
    assert!(!gamma.is_set(1u32.into()));
}

#[test]
fn containers_assignment_set_get_clear() {
    let mut gamma = AssignmentBasic::new(3);
    assert_eq!(gamma.get(Atom::from(1)), None);
    assert!(!gamma.is_set(Atom::from(1)));
    gamma.set(Atom::from(1), true);
    assert_eq!(gamma.get(Atom::from(1)), Some(true));
    assert!(gamma.is_set(Atom::from(1)));
    gamma.clear(Atom::from(1));
    assert_eq!(gamma.get(Atom::from(1)), None);
    assert!(!gamma.is_set(Atom::from(1)));
}

#[test]
fn assert_trivial() {
    let s = Atom::from(0);
    assert!(s < 1.into());
}

#[test]
fn assignment_other_slots_untouched() {
    let mut gamma = AssignmentBasic::new(4);
    gamma.set(Atom::from(2), false);
    gamma.set(Atom::from(4), true);
    assert_eq!(gamma.slots(), vec![None, Some(false), None, Some(true)]);
    assert!(!gamma.is_set(Atom::from(5)));
    assert_eq!(gamma.get_num_atoms(), 4);
    assert_eq!(gamma.as_formatted_str(), "-0-1");
    gamma.clear(Atom::from(2));
    assert_eq!(gamma.as_formatted_str(), "---1");
}

#[test]
fn gamma_display_is_coloured() {
    let mut gamma = AssignmentBasic::new(3);
    gamma.set(Atom::from(1), true);
    gamma.set(Atom::from(3), false);
    assert_eq!(
        to_str_gamma(&gamma),
        "\x1b[32m1\x1b[0m-\x1b[31m0\x1b[0m"
    );
    assert_eq!(to_str_gamma(&AssignmentBasic::new(0)), "");
}
