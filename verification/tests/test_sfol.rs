use sss::sfol::{lex_to_tokens, parse_sfol, parse_to_sexpr, SExpr, Token, CON, DIS, EXISTS};

// Test Lexer
fn fixture_form_1() -> String {
    format!("({exists} (x1) ({and} (P x2) x3))", exists = EXISTS, and = CON,)
}

fn fixture_form_1_expected_tokens() -> Vec<Token> {
    vec![
        Token::LParen,
        Token::Atom(EXISTS.into()),
        Token::LParen,
        Token::Atom("x1".into()),
        Token::RParen,
        Token::LParen,
        Token::Atom(CON.into()),
        Token::LParen,
        Token::Atom("P".into()),
        Token::Atom("x2".into()),
        Token::RParen,
        Token::Atom("x3".into()),
        Token::RParen,
        Token::RParen,
    ]
}

#[test]
fn lexer_core_formula() {
    let tokens_produced = lex_to_tokens(&fixture_form_1()).unwrap();
    assert_eq!(tokens_produced, fixture_form_1_expected_tokens());
}

#[test]
fn lexer_fol_comments() {
    let input = format!(
        r#"
            ;; E x1. P x1 /\ x2
            ;; There exists x1 such that P x1 and open x2 are true

            {} ;; This comment goes to eol
            "#,
        fixture_form_1(),
    );

    let tokens_produced = lex_to_tokens(&input).unwrap();
    assert_eq!(tokens_produced, fixture_form_1_expected_tokens());
}

#[test]
fn lexer_parentheses_without_whitespace() {
    let tokens_produced = lex_to_tokens("(Father(zorlak))").unwrap();

    assert_eq!(
        tokens_produced,
        vec![
            Token::LParen,
            Token::Atom("Father".into()),
            Token::LParen,
            Token::Atom("zorlak".into()),
            Token::RParen,
            Token::RParen,
        ]
    );
}

#[test]
fn lexer_utf8_atoms() {
    let tokens_produced =
        lex_to_tokens("(ßsome ger\r\tman utf--8café λx\t\r 日本語 \r\r)").unwrap();

    assert_eq!(
        tokens_produced,
        vec![
            Token::LParen,
            Token::Atom("ßsome".into()),
            Token::Atom("ger".into()),
            Token::Atom("man".into()),
            Token::Atom("utf--8café".into()),
            Token::Atom("λx".into()),
            Token::Atom("日本語".into()),
            Token::RParen,
        ]
    );
}

// Test Parser
fn fixture_form_2() -> String {
    format!("({and} (P x) (not (Q y)))", and = CON,)
}

fn fixture_form_2_expected_sexpr() -> SExpr {
    SExpr::List(vec![
        SExpr::Atom("and".into()),
        SExpr::List(vec![SExpr::Atom("P".into()), SExpr::Atom("x".into())]),
        SExpr::List(vec![
            SExpr::Atom("not".into()),
            SExpr::List(vec![SExpr::Atom("Q".into()), SExpr::Atom("y".into())]),
        ]),
    ])
}

#[test]
fn sexpr_nested_list() {
    let tokens_produced = lex_to_tokens(&fixture_form_2());
    let sexpr_produced = parse_to_sexpr(&tokens_produced.unwrap()).unwrap();
    assert_eq!(sexpr_produced, fixture_form_2_expected_sexpr());
}

#[test]
fn sexpr_rejects_unwrapped_list() {
    let tokens_produced = lex_to_tokens(&format!("{and} (P x) (Q y)", and = CON)).unwrap();
    let sexpr = parse_to_sexpr(&tokens_produced);
    assert!(sexpr.is_err());
}

#[test]
fn sexpr_rejects_unclosed_list() {
    let tokens_produced = lex_to_tokens(&format!("({or} (P x) (Q y)", or = DIS)).unwrap();
    let sexpr = parse_to_sexpr(&tokens_produced);
    assert!(sexpr.is_err());
}

#[test]
fn sexpr_rejects_extras() {
    let tokens_produced =
        lex_to_tokens(&format!("({and} (P x) (Q y)) hi", and = CON)).unwrap();
    let sexpr = parse_to_sexpr(&tokens_produced);
    assert!(sexpr.is_err());
}

#[test]
fn sexpr_accepts_closed_list() {
    let tokens_produced = lex_to_tokens(&format!("({and} (P x) (Q y))", and = CON)).unwrap();
    let sexpr = parse_to_sexpr(&tokens_produced);
    assert!(sexpr.is_ok());
}

#[test]
fn sexpr_accepts_nullary_predicate() {
    let tokens_produced = lex_to_tokens("P").unwrap();
    let sexpr = parse_to_sexpr(&tokens_produced);
    assert!(sexpr.is_ok());
}

#[test]
fn sexpr_accepts_nary_operators() {
    let tokens_produced = lex_to_tokens(&format!(
        "({and} (Parent x) (or (Mother x) (Father y) (Widowed x) (Widowed y)) (Child z))",
        and = CON
    ))
    .unwrap();
    let sexpr = parse_to_sexpr(&tokens_produced);
    assert!(sexpr.is_ok());
}

// Own cases

#[test]
fn lexer_empty_and_comment_only_input() {
    assert_eq!(lex_to_tokens("").unwrap(), Vec::<Token>::new());
    assert_eq!(lex_to_tokens("  ;; nothing here\n\t").unwrap(), Vec::<Token>::new());
}

#[test]
fn lexer_comment_ends_atom() {
    assert_eq!(
        lex_to_tokens("ab;;c\nd").unwrap(),
        vec![Token::Atom("ab".into()), Token::Atom("d".into())]
    );
}

#[test]
fn sexpr_error_messages() {
    assert_eq!(parse_to_sexpr(&[]), Err("could not get token at index 0".to_string()));
    assert_eq!(
        parse_to_sexpr(&[Token::RParen]),
        Err("unexpected opening token ')' at idx 0".to_string())
    );
    assert_eq!(
        parse_to_sexpr(&[Token::LParen, Token::Atom("a".into())]),
        Err("unclosed '(' at index 2".to_string())
    );
    assert_eq!(
        parse_to_sexpr(&[Token::LParen, Token::RParen, Token::RParen]),
        Err("tokens found after parsing s-expression at index 2".to_string())
    );
    assert_eq!(
        parse_to_sexpr(&[Token::LParen, Token::LParen, Token::RParen, Token::RParen, Token::RParen]),
        Err("tokens found after parsing s-expression at index 4".to_string())
    );
}

#[test]
fn sexpr_accepts_empty_list() {
    let e = parse_to_sexpr(&[Token::LParen, Token::RParen]).unwrap();
    assert_eq!(e, SExpr::List(vec![]));
}

#[test]
fn parse_sfol_ok_iff_one_sexpr() {
    assert!(parse_sfol("(and (P x) (Q y))").is_ok());
    assert!(parse_sfol("P").is_ok());
    assert!(parse_sfol("(and (P x)").is_err());
    assert!(parse_sfol("(P x) (Q y)").is_err());
    assert!(parse_sfol("").is_err());
}

fn sfol_error(input: &str) -> String {
    match parse_sfol(input) {
        Err(e) => e,
        Ok(f) => panic!("unexpected {:?}", f),
    }
}

#[test]
fn parse_sfol_error_messages() {
    assert_eq!(
        sfol_error("(and (P x) (Q y)) hi"),
        "tokens found after parsing s-expression at index 11"
    );
    assert_eq!(sfol_error("(and (P x)"), "unclosed '(' at index 6");
    assert_eq!(sfol_error(""), "could not get token at index 0");
    assert_eq!(sfol_error(") x"), "unexpected opening token ')' at idx 0");
    assert_eq!(sfol_error(";; only a comment\n"), "could not get token at index 0");
}

#[test]
fn comment_runs_to_line_end() {
    for (a, c, b) in [
        ("(P x)", " a comment (with parens)", "(Q y)"),
        ("x;", ";", "y"),
        (";; open comment", "more", "z"),
        ("", "", ""),
        ("(and", " )", "x)"),
    ] {
        assert_eq!(
            lex_to_tokens(&format!("{a} ;;{c}\n{b}")).unwrap(),
            lex_to_tokens(&format!("{a}\n{b}")).unwrap()
        );
    }
}

#[test]
fn unicode_whitespace_separates_atoms() {
    let spaces = [
        '\u{9}', '\u{A}', '\u{B}', '\u{C}', '\u{D}', '\u{20}', '\u{85}', '\u{A0}', '\u{1680}',
        '\u{2000}', '\u{2005}', '\u{200A}', '\u{2028}', '\u{2029}', '\u{202F}', '\u{205F}',
        '\u{3000}',
    ];
    for sp in spaces {
        assert_eq!(
            lex_to_tokens(&format!("a{sp}b")).unwrap(),
            vec![Token::Atom("a".into()), Token::Atom("b".into())]
        );
    }
    // a zero width space is no whitespace
    assert_eq!(
        lex_to_tokens("a\u{200B}b").unwrap(),
        vec![Token::Atom("a\u{200B}b".into())]
    );
}

#[test]
fn whitespace_table_matches_std() {
    let table = |u: u32| {
        (0x09..=0x0D).contains(&u)
            || u == 0x20
            || u == 0x85
            || u == 0xA0
            || u == 0x1680
            || (0x2000..=0x200A).contains(&u)
            || u == 0x2028
            || u == 0x2029
            || u == 0x202F
            || u == 0x205F
            || u == 0x3000
    };
    for u in 0u32..=0x10FFFF {
        if let Some(c) = char::from_u32(u) {
            assert_eq!(c.is_whitespace(), table(u), "code point {:X}", u);
        }
    }
}
