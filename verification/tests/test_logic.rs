use sss::logic::structure::{Lit, LitCastError};
use sss::logic::symbol::{FolArena, Form, Sym, Term};

// ===============================||
// Literals
// ===============================||

#[test]
fn test_parse_cycle() {
    for value in [1, -1, 359, -983, i32::MAX, -i32::MAX] {
        assert_eq!(
            i32::try_from(Lit::try_from(value).unwrap()).unwrap(),
            value
        );
    }
}

#[test]
fn test_zero_returns_err() {
    assert!(matches!(Lit::try_from(0), Err(LitCastError::Zero)));
}

#[test]
fn test_i32_min_returns_token_overflow() {
    assert!(matches!(
        Lit::try_from(i32::MIN),
        Err(LitCastError::Overflow)
    ));
}

#[test]
fn test_upper_bound_is_safe() {
    let safe_lb = i32::MIN + 1;
    let safe_lb_lit = Lit::try_from(safe_lb).unwrap();

    assert!(safe_lb_lit.is_negated());
    assert_eq!(safe_lb_lit.get_token(), safe_lb.unsigned_abs());
}

#[test]
fn test_zero_token_returns_err() {
    assert!(matches!(
        i32::try_from(Lit { v: 0 }),
        Err(LitCastError::Zero)
    ));
    assert!(matches!(
        i32::try_from(Lit { v: 1 }),
        Err(LitCastError::Zero)
    ));
}

#[test]
fn test_negated_literals() {
    let lit: Lit = Lit::try_from(4159).unwrap().negate();
    assert!(lit.is_negated());
    assert_eq!(i32::try_from(lit).unwrap(), -4159);
}

#[test]
fn test_negate_symmetry() {
    for value in [1, -1, i32::MAX, -i32::MAX] {
        let lit: Lit = Lit::try_from(value).unwrap();
        let lit = lit.negate();
        assert_eq!(i32::try_from(lit).unwrap(), -value);
    }
}

#[test]
fn test_double_negate() {
    let lit: Lit = Lit::try_from(232452).unwrap();
    assert_eq!(lit.negate().negate(), lit);
}

#[test]
fn lit_encoding_packs_token_and_sign() {
    assert_eq!(Lit::try_from(5).unwrap().v, 10);
    assert_eq!(Lit::try_from(-5).unwrap().v, 11);
    assert_eq!(Lit::try_from(-5).unwrap().get_token(), 5);
    assert!(!Lit::try_from(5).unwrap().is_negated());
    assert_eq!(Lit { v: 10 }.negate(), Lit { v: 11 });
    assert_eq!(Lit { v: 11 }.negate(), Lit { v: 10 });
}

#[test]
fn lit_round_trip_from_literal_side() {
    for v in [2u32, 3, 100, 101, u32::MAX - 1, u32::MAX] {
        let lit = Lit { v };
        let back = Lit::try_from(i32::try_from(lit.clone()).unwrap()).unwrap();
        assert_eq!(back, lit);
    }
}

// ===============================||
// Arena
// ===============================||

#[test]
fn test_var() {
    let mut arena = FolArena::new();

    let x = arena.new_term(Term::Var(Sym(0)));

    match arena.get_term(x) {
        Term::Var(Sym(id)) => assert_eq!(*id, 0),
        #[allow(unreachable_patterns)]
        other => panic!("expected Var, got {:?}", other),
    }
}

#[test]
fn test_neg_dis_imp() {
    // ~(A \/ B) -> C
    // where A, B, C are nullary predicates
    let mut arena = FolArena::new();

    let a = arena.new_form(Form::Prd(Sym(0), vec![]));
    let b = arena.new_form(Form::Prd(Sym(1), vec![]));
    let c = arena.new_form(Form::Prd(Sym(2), vec![]));

    let dis = arena.new_form(Form::Dis(vec![a, b]));
    let neg = arena.new_form(Form::Neg(dis));
    let root = arena.new_form(Form::Imp(neg, c));

    match arena.get_form(root) {
        Form::Imp(_, _) => {}
        other => panic!("expected Imp, got {:?}", other),
    }
}

#[test]
fn test_exists_contradiction() {
    // E x1. P(x1) /\ ~P(x1)
    let mut arena = FolArena::new();

    let x1 = arena.new_term(Term::Var(Sym(0)));
    let px = arena.new_form(Form::Prd(Sym(1), vec![x1]));
    let npx = arena.new_form(Form::Neg(px));
    let con = arena.new_form(Form::Con(vec![px, npx]));
    let root = arena.new_form(Form::Exists(Sym(0), con));

    match arena.get_form(root) {
        Form::Exists(bound, _) => assert_eq!(bound.0, 0),
        other => panic!("expected Exists, got {:?}", other),
    }
}

#[test]
fn arena_ids_count_up() {
    let mut arena = FolArena::new();
    let t0 = arena.new_term(Term::Var(Sym::new(7)));
    let t1 = arena.new_term(Term::Var(Sym::new(8)));
    let f0 = arena.new_form(Form::Top);
    let f1 = arena.new_form(Form::Equ(t0, t1));
    assert_eq!(t0.0, 0);
    assert_eq!(t1.0, 1);
    assert_eq!(f0.0, 0);
    assert_eq!(f1.0, 1);
    match arena.get_term(t1) {
        Term::Var(s) => assert_eq!(s.0, 8),
    }
    match arena.get_form(f1) {
        Form::Equ(a, b) => {
            assert_eq!(a.0, 0);
            assert_eq!(b.0, 1);
        }
        other => panic!("expected Equ, got {:?}", other),
    }
}
