use sss::parser::{parse_dimacs, read_dimacs_clauses, FormulaTranslator};
use sss::primitives::Atom;
use sss::sat::SatFormula;
use sss::structures::ClauseDisjunctiveBasic;

fn literal_lists(formula: &FormulaTranslator) -> Vec<Vec<(Atom, bool)>> {
    formula.cnf.clauses.iter().map(|c| c.literals_vec()).collect()
}

// --------------------------------
// Translator
// --------------------------------

#[test]
fn translator_normalizes_polarity() {
    let formula = FormulaTranslator::new(vec![vec![5, -322], vec![17]]);
    let sw_1 = *formula.dimacs_id_to_sw_id.get(&5).unwrap();
    let sw_2 = *formula.dimacs_id_to_sw_id.get(&322).unwrap();
    let sw_3 = *formula.dimacs_id_to_sw_id.get(&17).unwrap();
    let clauses = literal_lists(&formula);
    assert_eq!(clauses[0], vec![(sw_1, true), (sw_2, false)]);
    assert_eq!(clauses[1], vec![(sw_3, true)]);
}

#[test]
fn translator_polarity_unsat() {
    // (1) ∧ (¬1) is unsat, basic polarity test
    let formula = FormulaTranslator::new(vec![vec![1], vec![-1]]);
    assert!(!formula.cnf.is_sat());
}

#[test]
fn translator_large_id_normalized() {
    let formula = FormulaTranslator::new(vec![vec![242, -1]]);
    let sw_242 = *formula.dimacs_id_to_sw_id.get(&242).unwrap();
    let sw_1 = *formula.dimacs_id_to_sw_id.get(&1).unwrap();
    let clauses = literal_lists(&formula);
    assert_eq!(clauses[0], vec![(sw_242, true), (sw_1, false)]);
}

#[test]
fn translator_0v_0c_no_clauses() {
    let formula = FormulaTranslator::new(Vec::<Vec<i32>>::new());
    assert_eq!(formula.cnf.clauses.len(), 0);
    assert!(formula.dimacs_id_to_sw_id.is_empty());
}

#[test]
fn translator_0v_1c_empty_clause() {
    let formula = FormulaTranslator::new(vec![Vec::<i32>::new()]);
    let clauses = literal_lists(&formula);
    assert_eq!(clauses.len(), 1);
    assert!(clauses[0].is_empty());
    assert!(formula.dimacs_id_to_sw_id.is_empty());
}

#[test]
fn translator_numbers_in_first_occurrence_order() {
    let formula = FormulaTranslator::new(vec![vec![526, 334], vec![-334, 3, 74]]);
    assert_eq!(formula.dimacs_id_to_sw_id.len(), 4);
    assert_eq!(formula.dimacs_id_to_sw_id[&526], Atom::from(1));
    assert_eq!(formula.dimacs_id_to_sw_id[&334], Atom::from(2));
    assert_eq!(formula.dimacs_id_to_sw_id[&3], Atom::from(3));
    assert_eq!(formula.dimacs_id_to_sw_id[&74], Atom::from(4));
    assert_eq!(
        literal_lists(&formula),
        vec![
            vec![(Atom::from(1), true), (Atom::from(2), true)],
            vec![(Atom::from(2), false), (Atom::from(3), true), (Atom::from(4), true)],
        ]
    );
}

#[test]
fn translation_keeps_satisfiability() {
    // (5 ∨ 9) ∧ (¬5) ∧ (¬9) is unsat, (5 ∨ 9) ∧ (¬5) is sat
    let unsat = FormulaTranslator::new(vec![vec![5, 9], vec![-5], vec![-9]]);
    assert!(!unsat.is_sat());
    let sat = FormulaTranslator::new(vec![vec![5, 9], vec![-5]]);
    assert!(sat.is_sat());
}

// --------------------------------------------
// Parser
// --------------------------------------------

#[test]
fn clause_new_collects_elements() {
    let clause = ClauseDisjunctiveBasic::new(
        vec![Atom::from(1), Atom::from(2), Atom::from(3)],
        vec![true, false, false],
    );
    assert_eq!(clause.atoms, vec![Atom::from(1), Atom::from(2), Atom::from(3)]);
    assert_eq!(clause.truthiness, vec![true, false, false]);
}

#[test]
fn parse_simple_dimacs() {
    let dimacs = "\
        c example
        p cnf 3 2
        1 -2 0
        3 0
    ";

    let formula = match parse_dimacs(dimacs) {
        Some(f) => f,
        None => panic!("failed to read dimacs file {:?}", dimacs),
    };

    let sw_1 = *formula.dimacs_id_to_sw_id.get(&1).unwrap();
    let sw_2 = *formula.dimacs_id_to_sw_id.get(&2).unwrap();
    let sw_3 = *formula.dimacs_id_to_sw_id.get(&3).unwrap();
    assert_eq!(formula.cnf.clauses.len(), 2);
    assert_eq!(formula.cnf.clauses[0].atoms, vec![sw_1, sw_2]);
    assert_eq!(formula.cnf.clauses[0].truthiness, vec![true, false]);
    assert_eq!(formula.cnf.clauses[1].atoms, vec![sw_3]);
    assert_eq!(formula.cnf.clauses[1].truthiness, vec![true]);
}

#[test]
fn parse_complex_dimacs() {
    let dimacs = "\
        c example
        p cnf 4 6
        1 -2 1
        3 0
        2 -242 0
        0
        0
        3 0 
        0
    ";

    let formula = match parse_dimacs(dimacs) {
        Some(f) => f,
        None => panic!("failed to read dimacs file {:?}", dimacs),
    };

    let sw_1 = *formula.dimacs_id_to_sw_id.get(&1).unwrap();
    let sw_2 = *formula.dimacs_id_to_sw_id.get(&2).unwrap();
    let sw_3 = *formula.dimacs_id_to_sw_id.get(&3).unwrap();
    let sw_242 = *formula.dimacs_id_to_sw_id.get(&242).unwrap();
    assert_eq!(formula.cnf.clauses.len(), 6);
    assert_eq!(formula.cnf.clauses[0].atoms, vec![sw_1, sw_2, sw_1, sw_3]);
    assert_eq!(
        formula.cnf.clauses[0].truthiness,
        vec![true, false, true, true]
    );
    assert_eq!(formula.cnf.clauses[1].atoms, vec![sw_2, sw_242]);
    assert_eq!(formula.cnf.clauses[1].truthiness, vec![true, false]);
    assert_eq!(formula.cnf.clauses[2].atoms, vec![]);
    assert_eq!(formula.cnf.clauses[3].atoms, vec![]);
    assert_eq!(formula.cnf.clauses[4].atoms, vec![sw_3]);
    assert_eq!(formula.cnf.clauses[4].truthiness, vec![true]);
    assert_eq!(formula.cnf.clauses[5].atoms, vec![]);
}

#[test]
fn empty_file_parses_as_empty_formula() {
    let formula = match parse_dimacs("") {
        Some(f) => f,
        None => panic!("failed to read dimacs file {:?}", ""),
    };
    assert_eq!(formula.cnf.clauses.len(), 0);
}

#[test]
fn singleton_formula_parses_correctly() {
    let dimacs = "p cnf 1 1\n1 0\n";
    let formula = match parse_dimacs(dimacs) {
        Some(f) => f,
        None => panic!("failed to read dimacs file {:?}", dimacs),
    };
    let sw_1 = *formula.dimacs_id_to_sw_id.get(&1).unwrap();
    assert_eq!(formula.cnf.clauses.len(), 1);
    assert_eq!(formula.cnf.clauses[0].atoms, vec![sw_1]);
    assert_eq!(formula.cnf.clauses[0].truthiness, vec![true]);
}

#[test]
fn dimacs_reader_cases() {
    // words that are no number are passed over, a sign is read
    assert_eq!(read_dimacs_clauses("1 x +2 0\n"), vec![vec![1, 2]]);
    // literals after the last 0 belong to no clause
    assert_eq!(read_dimacs_clauses("1 0\n2 3\n"), vec![vec![1]]);
    // a clause may run over several lines, carriage returns are dropped
    assert_eq!(read_dimacs_clauses("1\r\n-2\r\n0\r\n"), vec![vec![1, -2]]);
    // comment and problem lines need `c` or `p` as a word of their own
    assert_eq!(read_dimacs_clauses("cx 4 0\nc 5 0\np 6 0\n"), vec![vec![4]]);
    // a value past i32 is no number
    assert_eq!(read_dimacs_clauses("2147483648 1 0"), vec![vec![1]]);
}

#[test]
fn dimacs_rejects_minimal_literal() {
    assert!(parse_dimacs("-2147483648 0\n").is_none());
    assert!(parse_dimacs("-2147483647 0\n").is_some());
}

// --------------------------------------------
// Structures of a translation
// --------------------------------------------

#[test]
fn clause_vectors_same_length() {
    let input: Vec<Vec<i32>> = vec![vec![1, -2, 3], vec![-1], vec![]];
    let formula: FormulaTranslator = FormulaTranslator::new(input);
    for clause in &formula.cnf.clauses {
        assert_eq!(clause.atoms.len(), clause.truthiness.len());
    }
}

#[test]
fn map_covers_all_atoms() {
    let input: Vec<Vec<i32>> = vec![vec![1, -2, 3], vec![-100, 2]];
    let formula: FormulaTranslator = FormulaTranslator::new(input.clone());
    for clause in &input {
        for &lit in clause {
            assert!(formula.dimacs_id_to_sw_id.contains_key(&lit.abs()));
        }
    }
}

#[test]
fn polarity_matches_sign() {
    let input: Vec<Vec<i32>> = vec![vec![1, -2, 3, -3]];
    let formula: FormulaTranslator = FormulaTranslator::new(input);
    let clause = &formula.cnf.clauses[0];
    assert_eq!(clause.truthiness, vec![true, false, true, false]);
}

#[test]
fn clause_atoms_match_map() {
    let input: Vec<Vec<i32>> = vec![vec![5, -99, 5]];
    let formula: FormulaTranslator = FormulaTranslator::new(input.clone());
    let clause = &formula.cnf.clauses[0];
    for (i, &lit) in input[0].iter().enumerate() {
        let expected = *formula.dimacs_id_to_sw_id.get(&lit.abs()).unwrap();
        assert_eq!(clause.atoms[i], expected);
    }
}
