//! The s-expression front end for first order formulas: a lexer, an
//! s-expression parser and the arena that formulas are lowered into.
use vstd::prelude::*;
use crate::text::{chars_of, decimal, is_whitespace, string_from_chars, white_space, with_number};

verus! {

// Grammar
/// Starts a comment that runs to the end of the line.
pub const G_COMMENT: &'static str = ";;";

/// Opens a list.
pub const G_LPAREN: char = '(';

/// Closes a list.
pub const G_RPAREN: char = ')';

// Keywords
/// Conjunction.
pub const CON: &'static str = "and";

/// Disjunction.
pub const DIS: &'static str = "or";

/// Negation.
pub const NEG: &'static str = "not";

/// Implication.
pub const IMPLIES: &'static str = "implies";

/// Existential quantifier.
pub const EXISTS: &'static str = "exists";

/// Universal quantifier.
pub const FORALL: &'static str = "forall";

/// Truth.
pub const TOP: &'static str = "top";

/// Falsity.
pub const BOT: &'static str = "bot";

/// Equality.
pub const EQU: &'static str = "eq";

/// A token of the s-expression syntax.
#[derive(Debug, PartialEq, Eq, Hash, Clone)]
pub enum Token {
    LParen,
    RParen,
    Atom(String),
}

/// A token with its text seen as characters.
pub enum TokenView {
    LParen,
    RParen,
    Atom(Seq<char>),
}

impl View for Token {
    type V = TokenView;

    open spec fn view(&self) -> TokenView {
        match self {
            Token::LParen => TokenView::LParen,
            Token::RParen => TokenView::RParen,
            Token::Atom(s) => TokenView::Atom(s@),
        }
    }
}

/// The views of a sequence of tokens.
pub open spec fn token_views(ts: Seq<Token>) -> Seq<TokenView> {
    ts.map_values(|t: Token| t@)
}

/// A character that ends a lexeme: whitespace or a parenthesis.
pub open spec fn is_delim(c: char) -> bool {
    white_space(c) || c == '(' || c == ')'
}

/// `s` starts with the comment marker `;;`.
pub open spec fn starts_comment(s: Seq<char>) -> bool {
    s.len() >= 2 && s[0] == ';' && s[1] == ';'
}

/// The length of the lexeme at the start of `s`: it runs to the first
/// delimiter or comment marker.
pub open spec fn lexeme_len(s: Seq<char>) -> nat
    decreases s.len(),
{
    if s.len() == 0 || starts_comment(s) || is_delim(s[0]) {
        0
    } else {
        1 + lexeme_len(s.drop_first())
    }
}

/// The length of the comment at the start of `s`: it runs up to the next
/// `\n`, which it leaves in place, or to the end.
pub open spec fn comment_len(s: Seq<char>) -> nat
    decreases s.len(),
{
    if s.len() == 0 || s[0] == '\n' {
        0
    } else {
        1 + comment_len(s.drop_first())
    }
}

pub proof fn lemma_lexeme_len_bound(s: Seq<char>)
    ensures
        lexeme_len(s) <= s.len(),
    decreases s.len(),
{
    if s.len() > 0 {
        lemma_lexeme_len_bound(s.drop_first());
    }
}

pub proof fn lemma_comment_len_bound(s: Seq<char>)
    ensures
        comment_len(s) <= s.len(),
    decreases s.len(),
{
    if s.len() > 0 {
        lemma_comment_len_bound(s.drop_first());
    }
}

/// The tokens of `s`: whitespace and comments are passed over, each
/// parenthesis is a token, and every other run of characters up to a
/// delimiter or comment marker is an atom.
pub open spec fn lex(s: Seq<char>) -> Seq<TokenView>
    decreases s.len(),
{
    if s.len() == 0 {
        Seq::empty()
    } else if white_space(s[0]) {
        lex(s.drop_first())
    } else if starts_comment(s) {
        proof {
            lemma_comment_len_bound(s);
        }
        lex(s.skip(comment_len(s) as int))
    } else if s[0] == '(' {
        seq![TokenView::LParen] + lex(s.drop_first())
    } else if s[0] == ')' {
        seq![TokenView::RParen] + lex(s.drop_first())
    } else {
        proof {
            lemma_lexeme_len_bound(s);
        }
        let n = lexeme_len(s);
        seq![TokenView::Atom(s.take(n as int))] + lex(s.skip(n as int))
    }
}

/// A comment that meets no line end runs through its text and on into what
/// follows; one that meets a line end stops there.
proof fn lemma_comment_len_concat(a: Seq<char>, r: Seq<char>)
    ensures
        comment_len(a) <= a.len(),
        comment_len(a) < a.len() ==> comment_len(a + r) == comment_len(a),
        comment_len(a) == a.len() ==> comment_len(a + r) == a.len() + comment_len(r),
        !a.contains('\n') ==> comment_len(a) == a.len(),
    decreases a.len(),
{
    if a.len() > 0 {
        assert((a + r).drop_first() =~= a.drop_first() + r);
        assert((a + r)[0] == a[0]);
        lemma_comment_len_concat(a.drop_first(), r);
        if !a.contains('\n') {
            assert(a[0] != '\n');
            assert forall|k: int| 0 <= k < a.drop_first().len() implies a.drop_first()[k] != '\n' by {
                assert(a.drop_first()[k] == a[k + 1]);
            }
        }
    } else {
        assert(a + r =~= r);
    }
}

/// Before a delimiter that is not `;`, a lexeme ends within `a`, wherever it
/// goes on.
proof fn lemma_lexeme_len_concat(a: Seq<char>, r1: Seq<char>, r2: Seq<char>)
    requires
        r1.len() > 0,
        r2.len() > 0,
        is_delim(r1[0]),
        is_delim(r2[0]),
        r1[0] != ';',
        r2[0] != ';',
    ensures
        lexeme_len(a + r1) == lexeme_len(a + r2),
        lexeme_len(a + r1) <= a.len(),
    decreases a.len(),
{
    if a.len() == 0 {
        assert(a + r1 =~= r1);
        assert(a + r2 =~= r2);
    } else {
        assert((a + r1).drop_first() =~= a.drop_first() + r1);
        assert((a + r2).drop_first() =~= a.drop_first() + r2);
        assert((a + r1)[0] == a[0]);
        assert((a + r2)[0] == a[0]);
        if a.len() >= 2 {
            assert((a + r1)[1] == a[1]);
            assert((a + r2)[1] == a[1]);
        } else {
            assert((a + r1)[1] == r1[0]);
            assert((a + r2)[1] == r2[0]);
        }
        lemma_lexeme_len_concat(a.drop_first(), r1, r2);
    }
}

/// Two continuations that lex alike from the start of a token, that both
/// begin with whitespace other than `;`, and that leave the same text after
/// a comment running into them, lex alike after any text `a`.
proof fn lemma_lex_suffix_congruence(a: Seq<char>, r1: Seq<char>, r2: Seq<char>)
    requires
        r1.len() > 0,
        r2.len() > 0,
        white_space(r1[0]),
        white_space(r2[0]),
        r1[0] != ';',
        r2[0] != ';',
        lex(r1) == lex(r2),
        r1.skip(comment_len(r1) as int) == r2.skip(comment_len(r2) as int),
    ensures
        lex(a + r1) == lex(a + r2),
    decreases a.len(),
{
    let s1 = a + r1;
    let s2 = a + r2;
    if a.len() == 0 {
        assert(s1 =~= r1);
        assert(s2 =~= r2);
    } else {
        assert(s1[0] == a[0]);
        assert(s2[0] == a[0]);
        assert(s1.drop_first() =~= a.drop_first() + r1);
        assert(s2.drop_first() =~= a.drop_first() + r2);
        if a.len() >= 2 {
            assert(s1[1] == a[1]);
            assert(s2[1] == a[1]);
        } else {
            assert(s1[1] == r1[0]);
            assert(s2[1] == r2[0]);
        }
        if white_space(a[0]) {
            lemma_lex_suffix_congruence(a.drop_first(), r1, r2);
        } else if starts_comment(s1) {
            assert(starts_comment(s2));
            lemma_comment_len_concat(a, r1);
            lemma_comment_len_concat(a, r2);
            lemma_comment_len_bound(s1);
            lemma_comment_len_bound(s2);
            if comment_len(a) < a.len() {
                let p = comment_len(a) as int;
                assert(s1.skip(p) =~= a.skip(p) + r1);
                assert(s2.skip(p) =~= a.skip(p) + r2);
                // the comment is at least the two characters of its marker
                assert(a[0] != '\n');
                assert(a[1] == ';');
                lemma_comment_len_concat(a.drop_first(), r1);
                assert(p >= 2);
                lemma_lex_suffix_congruence(a.skip(p), r1, r2);
            } else {
                assert(s1.skip(comment_len(s1) as int) =~= r1.skip(comment_len(r1) as int));
                assert(s2.skip(comment_len(s2) as int) =~= r2.skip(comment_len(r2) as int));
            }
        } else if a[0] == '(' || a[0] == ')' {
            lemma_lex_suffix_congruence(a.drop_first(), r1, r2);
        } else {
            lemma_lexeme_len_concat(a, r1, r2);
            lemma_lexeme_len_bound(s1);
            let n = lexeme_len(s1) as int;
            assert(n >= 1) by {
                assert(lexeme_len(s1) == 1 + lexeme_len(s1.drop_first()));
            }
            assert(s1.take(n) =~= a.take(n));
            assert(s2.take(n) =~= a.take(n));
            assert(s1.skip(n) =~= a.skip(n) + r1);
            assert(s2.skip(n) =~= a.skip(n) + r2);
            lemma_lex_suffix_congruence(a.skip(n), r1, r2);
        }
    }
}

/// A `;;` comment runs to the end of its line and gives no token: text `a`,
/// then a space and a comment `;;c` with no line break in `c`, then the line
/// break and text `b`, lexes as `a`, the line break and `b`.
pub proof fn lemma_comment_gives_no_token(a: Seq<char>, c: Seq<char>, b: Seq<char>)
    requires
        !c.contains('\n'),
    ensures
        lex(a + (seq![' ', ';', ';'] + c + seq!['\n'] + b)) == lex(a + (seq!['\n'] + b)),
{
    let r1 = seq![' ', ';', ';'] + c + seq!['\n'] + b;
    let r2 = seq!['\n'] + b;
    let cm = seq![';', ';'] + c;
    assert(!cm.contains('\n')) by {
        if cm.contains('\n') {
            let k = choose|k: int| 0 <= k < cm.len() && cm[k] == '\n';
            assert(c[k - 2] == '\n');
        }
    }
    lemma_comment_len_concat(cm, r2);
    assert(cm + r2 =~= r1.drop_first());
    assert(r1[0] == ' ');
    assert(r2[0] == '\n');
    assert(comment_len(r2) == 0);
    assert(comment_len(r1) == 1 + comment_len(r1.drop_first()));
    assert(r1.skip(comment_len(r1) as int) =~= r2);
    assert(r2.skip(0) =~= r2);
    // `lex(r1)`: the space is passed over, then the comment up to the line break
    assert(starts_comment(r1.drop_first()));
    lemma_comment_len_bound(r1.drop_first());
    assert(r1.drop_first().skip(comment_len(r1.drop_first()) as int) =~= r2);
    assert(lex(r1) == lex(r1.drop_first()));
    assert(lex(r1.drop_first()) == lex(r2));
    lemma_lex_suffix_congruence(a, r1, r2);
}

/// Splits `input` into tokens. Whitespace and comments (from `;;` to the end
/// of the line) separate tokens; each parenthesis is a token; every other
/// run of characters is an atom. Every input lexes, so the result is
/// always `Ok`.
pub fn lex_to_tokens(input: &str) -> (r: Result<Vec<Token>, String>)
    ensures
        r matches Ok(ts) && token_views(ts@) == lex(input@),
{
    let cs = chars_of(input);
    let n = cs.len();
    let mut tokens: Vec<Token> = Vec::new();
    let mut idx: usize = 0;
    proof {
        assert(cs@.skip(0) =~= cs@);
        assert(token_views(tokens@) =~= Seq::<TokenView>::empty());
    }
    while idx < n
        invariant
            n == cs@.len(),
            cs@ == input@,
            idx <= n,
            token_views(tokens@) + lex(cs@.skip(idx as int)) == lex(cs@),
        decreases n - idx,
    {
        let ghost s = cs@.skip(idx as int);
        let curr = cs[idx];
        proof {
            assert(s[0] == curr);
            assert(s.drop_first() =~= cs@.skip(idx + 1));
        }
        if is_whitespace(curr) {
            idx = idx + 1;
            continue;
        }
        // a comment runs to the next newline or the end of the input
        if idx + 1 < n && cs[idx] == ';' && cs[idx + 1] == ';' {
            assert(starts_comment(s));
            let mut j = idx;
            while j < n && cs[j] != '\n'
                invariant
                    n == cs@.len(),
                    idx <= j <= n,
                    s == cs@.skip(idx as int),
                    comment_len(s) == (j - idx) + comment_len(cs@.skip(j as int)),
                decreases n - j,
            {
                proof {
                    assert(cs@.skip(j as int)[0] == cs@[j as int]);
                    assert(cs@.skip(j as int).drop_first() =~= cs@.skip(j + 1));
                }
                j = j + 1;
            }
            proof {
                if j < n {
                    assert(cs@.skip(j as int)[0] == cs@[j as int]);
                }
                assert(s.skip(comment_len(s) as int) =~= cs@.skip(j as int));
            }
            idx = j;
            continue;
        }
        assert(!starts_comment(s));
        if curr == '(' {
            let ghost prev = tokens@;
            tokens.push(Token::LParen);
            proof {
                assert(token_views(tokens@) =~= token_views(prev) + seq![TokenView::LParen]);
            }
            idx = idx + 1;
            continue;
        }
        if curr == ')' {
            let ghost prev = tokens@;
            tokens.push(Token::RParen);
            proof {
                assert(token_views(tokens@) =~= token_views(prev) + seq![TokenView::RParen]);
            }
            idx = idx + 1;
            continue;
        }
        let lexeme_start = idx;
        let mut lexeme: Vec<char> = Vec::new();
        let mut at_end = false;
        while idx < n && !at_end
            invariant
                n == cs@.len(),
                lexeme_start <= idx <= n,
                s == cs@.skip(lexeme_start as int),
                lexeme@ == cs@.subrange(lexeme_start as int, idx as int),
                lexeme_len(s) == (idx - lexeme_start) + lexeme_len(cs@.skip(idx as int)),
                at_end ==> lexeme_len(cs@.skip(idx as int)) == 0,
            decreases n - idx + if at_end { 0int } else { 1int },
        {
            let ghost t = cs@.skip(idx as int);
            let c = cs[idx];
            proof {
                assert(t[0] == c);
                assert(t.drop_first() =~= cs@.skip(idx + 1));
            }
            if idx + 1 < n && cs[idx] == ';' && cs[idx + 1] == ';' {
                assert(starts_comment(t));
                at_end = true;
            } else if is_whitespace(c) || c == G_LPAREN || c == G_RPAREN {
                at_end = true;
            } else {
                assert(!starts_comment(t));
                lexeme.push(c);
                idx = idx + 1;
                proof {
                    assert(lexeme@ =~= cs@.subrange(lexeme_start as int, idx as int));
                }
            }
        }
        proof {
            if !at_end {
                assert(cs@.skip(idx as int).len() == 0);
            }
        }
        if idx == lexeme_start {
            return Err("unexpected char".to_owned());
        }
        let lexeme_slice = string_from_chars(lexeme.as_slice());
        let ghost prev = tokens@;
        tokens.push(Token::Atom(lexeme_slice));
        proof {
            let m = lexeme_len(s);
            assert(m == idx - lexeme_start);
            assert(s.take(m as int) =~= lexeme@);
            assert(s.skip(m as int) =~= cs@.skip(idx as int));
            assert(token_views(tokens@) =~= token_views(prev) + seq![TokenView::Atom(lexeme@)]);
        }
    }
    proof {
        assert(cs@.skip(n as int) =~= Seq::<char>::empty());
        assert(token_views(tokens@) =~= lex(cs@));
    }
    Ok(tokens)
}

/// An s-expression: an atom or a parenthesised list.
#[derive(Debug, PartialEq)]
pub enum SExpr {
    Atom(String),
    List(Vec<SExpr>),
}

/// An s-expression with its atoms seen as characters.
pub enum SExprView {
    Atom(Seq<char>),
    List(Seq<SExprView>),
}

/// The view of an s-expression.
pub open spec fn sexpr_view(e: SExpr) -> SExprView
    decreases e,
{
    match e {
        SExpr::Atom(s) => SExprView::Atom(s@),
        SExpr::List(v) => SExprView::List(sexprs_view(v@)),
    }
}

/// The views of a sequence of s-expressions.
pub open spec fn sexprs_view(v: Seq<SExpr>) -> Seq<SExprView>
    decreases v,
{
    if v.len() == 0 {
        Seq::empty()
    } else {
        seq![sexpr_view(v[0])] + sexprs_view(v.drop_first())
    }
}

impl View for SExpr {
    type V = SExprView;

    open spec fn view(&self) -> SExprView {
        sexpr_view(*self)
    }
}

/// The tokens that write `e` down.
pub open spec fn ser(e: SExprView) -> Seq<TokenView>
    decreases e,
{
    match e {
        SExprView::Atom(s) => seq![TokenView::Atom(s)],
        SExprView::List(es) => seq![TokenView::LParen] + ser_list(es) + seq![TokenView::RParen],
    }
}

/// The tokens that write the items `es` down, one after the other.
pub open spec fn ser_list(es: Seq<SExprView>) -> Seq<TokenView>
    decreases es,
{
    if es.len() == 0 {
        Seq::empty()
    } else {
        ser(es[0]) + ser_list(es.drop_first())
    }
}

/// The views of the items grow with the items.
pub proof fn lemma_sexprs_view_push(v: Seq<SExpr>, x: SExpr)
    ensures
        sexprs_view(v.push(x)) == sexprs_view(v).push(sexpr_view(x)),
    decreases v.len(),
{
    if v.len() == 0 {
        assert(v.push(x).drop_first() =~= Seq::<SExpr>::empty());
        assert(sexprs_view(v.push(x).drop_first()) == Seq::<SExprView>::empty());
        assert(sexprs_view(v.push(x)) =~= seq![sexpr_view(x)]);
    } else {
        assert(v.push(x).drop_first() =~= v.drop_first().push(x));
        lemma_sexprs_view_push(v.drop_first(), x);
        assert(sexprs_view(v.push(x)) =~= sexprs_view(v).push(sexpr_view(x)));
    }
}

/// Writing one more item down appends its tokens.
pub proof fn lemma_ser_list_push(es: Seq<SExprView>, e: SExprView)
    ensures
        ser_list(es.push(e)) == ser_list(es) + ser(e),
    decreases es.len(),
{
    if es.len() == 0 {
        assert(es.push(e).drop_first() =~= Seq::<SExprView>::empty());
        assert(ser_list(es.push(e).drop_first()) == Seq::<TokenView>::empty());
        assert(es.push(e)[0] == e);
        assert(ser_list(es.push(e)) =~= ser(e));
    } else {
        assert(es.push(e).drop_first() =~= es.drop_first().push(e));
        lemma_ser_list_push(es.drop_first(), e);
        assert(ser_list(es.push(e)) =~= ser_list(es) + ser(e));
    }
}

/// Every s-expression is written with at least one token, and the first is
/// never a closing parenthesis.
pub proof fn lemma_ser_first(e: SExprView)
    ensures
        ser(e).len() > 0,
        ser(e)[0] != TokenView::RParen,
        e is Atom <==> ser(e)[0] is Atom,
{
}

/// Writing down is unambiguous: when the tokens of `e1` followed by `r1`
/// are the tokens of `e2` followed by `r2`, then `e1` is `e2` and `r1` is
/// `r2`.
pub proof fn lemma_ser_unique(
    e1: SExprView,
    r1: Seq<TokenView>,
    e2: SExprView,
    r2: Seq<TokenView>,
)
    requires
        ser(e1) + r1 == ser(e2) + r2,
    ensures
        e1 == e2,
        r1 == r2,
    decreases e1,
{
    lemma_ser_first(e1);
    lemma_ser_first(e2);
    assert((ser(e1) + r1)[0] == ser(e1)[0]);
    assert((ser(e2) + r2)[0] == ser(e2)[0]);
    match e1 {
        SExprView::Atom(s1) => {
            let s2 = e2->Atom_0;
            assert(ser(e2)[0] == TokenView::Atom(s2));
            assert(r1 =~= (ser(e1) + r1).skip(1));
            assert(r2 =~= (ser(e2) + r2).skip(1));
        },
        SExprView::List(es1) => {
            let es2 = e2->List_0;
            let t1 = ser_list(es1) + (seq![TokenView::RParen] + r1);
            let t2 = ser_list(es2) + (seq![TokenView::RParen] + r2);
            assert(t1 =~= (ser(e1) + r1).skip(1));
            assert(t2 =~= (ser(e2) + r2).skip(1));
            lemma_ser_list_unique(es1, r1, es2, r2);
        },
    }
}

/// The list form of [`lemma_ser_unique`]: items up to a closing parenthesis
/// are read back unambiguously.
pub proof fn lemma_ser_list_unique(
    es1: Seq<SExprView>,
    r1: Seq<TokenView>,
    es2: Seq<SExprView>,
    r2: Seq<TokenView>,
)
    requires
        ser_list(es1) + (seq![TokenView::RParen] + r1) == ser_list(es2) + (seq![TokenView::RParen]
            + r2),
    ensures
        es1 == es2,
        r1 == r2,
    decreases es1,
{
    let t1 = ser_list(es1) + (seq![TokenView::RParen] + r1);
    if es1.len() == 0 {
        assert(t1[0] == TokenView::RParen);
        if es2.len() > 0 {
            lemma_ser_first(es2[0]);
            assert((ser(es2[0]) + (ser_list(es2.drop_first()) + (seq![TokenView::RParen] + r2)))[0]
                == ser(es2[0])[0]);
            assert(t1 =~= ser(es2[0]) + (ser_list(es2.drop_first()) + (seq![TokenView::RParen]
                + r2)));
        }
        assert(r1 =~= t1.skip(1));
        assert(r2 =~= (ser_list(es2) + (seq![TokenView::RParen] + r2)).skip(1));
        assert(es1 =~= es2);
    } else {
        lemma_ser_first(es1[0]);
        let rest1 = ser_list(es1.drop_first()) + (seq![TokenView::RParen] + r1);
        assert(t1 =~= ser(es1[0]) + rest1);
        assert(t1[0] == ser(es1[0])[0]);
        if es2.len() == 0 {
            assert((ser_list(es2) + (seq![TokenView::RParen] + r2))[0] == TokenView::RParen);
        }
        let rest2 = ser_list(es2.drop_first()) + (seq![TokenView::RParen] + r2);
        assert(ser_list(es2) + (seq![TokenView::RParen] + r2) =~= ser(es2[0]) + rest2);
        lemma_ser_unique(es1[0], rest1, es2[0], rest2);
        lemma_ser_list_unique(es1.drop_first(), r1, es2.drop_first(), r2);
        assert(es1 =~= es2) by {
            assert forall|k: int| 0 <= k < es1.len() implies es1[k] == es2[k] by {
                if k > 0 {
                    assert(es1[k] == es1.drop_first()[k - 1]);
                    assert(es2[k] == es2.drop_first()[k - 1]);
                }
            }
        }
    }
}

/// Some s-expression is written down at the start of `t`.
pub open spec fn has_sexpr_prefix(t: Seq<TokenView>) -> bool {
    exists|e: SExprView| #[trigger] ser(e).is_prefix_of(t)
}

/// A prefix followed by the rest is the whole.
pub proof fn lemma_prefix_concat(p: Seq<TokenView>, r: Seq<TokenView>)
    ensures
        p.is_prefix_of(p + r),
        (p + r).skip(p.len() as int) == r,
{
    assert((p + r).subrange(0, p.len() as int) =~= p);
    assert((p + r).skip(p.len() as int) =~= r);
}

/// A sequence is its prefix followed by what comes after the prefix.
pub proof fn lemma_prefix_split(p: Seq<TokenView>, t: Seq<TokenView>)
    requires
        p.is_prefix_of(t),
    ensures
        t == p + t.skip(p.len() as int),
{
    assert(t =~= p + t.skip(p.len() as int));
}

/// The message of a failed read of an s-expression at token `idx`: no
/// token there, a `)` where an s-expression should start, or else a list
/// that is still open when the tokens run out.
pub open spec fn sexpr_error_at(views: Seq<TokenView>, idx: nat) -> Seq<char> {
    if idx >= views.len() {
        "could not get token at index "@ + decimal(idx)
    } else if views[idx as int] is RParen {
        "unexpected opening token ')' at idx "@ + decimal(idx)
    } else {
        "unclosed '(' at index "@ + decimal(views.len())
    }
}

/// The message of a failed read of exactly one s-expression from `views`:
/// the read's own message when no s-expression starts the tokens, else the
/// index of the first token after that s-expression.
pub open spec fn parse_error(views: Seq<TokenView>) -> Seq<char> {
    if has_sexpr_prefix(views) {
        "tokens found after parsing s-expression at index "@ + decimal(
            ser(choose|e: SExprView| #[trigger] ser(e).is_prefix_of(views)).len(),
        )
    } else {
        sexpr_error_at(views, 0)
    }
}

/// Reads the s-expression that starts at token `idx`; on success also gives
/// the index of the token after it.
fn parse_to_sexpr_core(tokens: &[Token], idx: usize) -> (r: Result<(SExpr, usize), String>)
    ensures
        r matches Ok((e, n)) ==> idx < n <= tokens@.len() && token_views(tokens@).subrange(
            idx as int,
            n as int,
        ) == ser(e@),
        r is Err ==> idx <= tokens@.len() ==> !has_sexpr_prefix(
            token_views(tokens@).skip(idx as int),
        ),
        r matches Err(m) ==> m@ == sexpr_error_at(token_views(tokens@), idx as nat),
    decreases tokens@.len() - idx,
{
    let ghost views = token_views(tokens@);
    let ghost t = views.skip(idx as int);
    if idx >= tokens.len() {
        proof {
            if has_sexpr_prefix(t) {
                let e = choose|e: SExprView| #[trigger] ser(e).is_prefix_of(t);
                lemma_ser_first(e);
            }
        }
        return Err(with_number("could not get token at index ", idx as u64));
    }
    proof {
        assert(t[0] == tokens@[idx as int]@);
    }
    match &tokens[idx] {
        // on a left paren we consume up to and including the right paren
        Token::LParen => {
            let mut i = idx + 1;
            let mut items: Vec<SExpr> = Vec::new();
            let ghost te = choose|e: SExprView| #[trigger] ser(e).is_prefix_of(t);
            let ghost target = (te, t.skip(ser(te).len() as int));
            proof {
                assert(views[idx as int] == tokens@[idx as int]@);
                assert(views.subrange(idx as int, i as int) =~= seq![TokenView::LParen]);
                assert(sexprs_view(items@) =~= Seq::<SExprView>::empty());
                if has_sexpr_prefix(t) {
                    let (e, rest) = target;
                    lemma_prefix_split(ser(e), t);
                    lemma_ser_first(e);
                    assert((ser(e) + rest)[0] == ser(e)[0]);
                    let es = e->List_0;
                    assert(views.skip(i as int) =~= t.drop_first());
                    assert(t.drop_first() =~= ser_list(es) + seq![TokenView::RParen] + rest);
                    assert(es.skip(0) =~= es);
                    assert(es.take(0) =~= Seq::<SExprView>::empty());
                }
            }
            loop
                invariant
                    idx < i <= tokens@.len(),
                    views == token_views(tokens@),
                    views[idx as int] is LParen,
                    t == views.skip(idx as int),
                    views.subrange(idx as int, i as int) == seq![TokenView::LParen] + ser_list(
                        sexprs_view(items@),
                    ),
                    has_sexpr_prefix(t) ==> {
                        &&& t == ser(target.0) + target.1
                        &&& target.0 is List
                        &&& items@.len() <= target.0->List_0.len()
                        &&& sexprs_view(items@) == target.0->List_0.take(items@.len() as int)
                        &&& views.skip(i as int) == ser_list(
                            target.0->List_0.skip(items@.len() as int),
                        ) + seq![TokenView::RParen] + target.1
                    },
                decreases tokens@.len() - i,
            {
                let ghost es = target.0->List_0;
                let ghost k = items@.len() as int;
                if i >= tokens.len() {
                    proof {
                        if has_sexpr_prefix(t) {
                            assert(views.skip(i as int).len() > 0);
                        }
                    }
                    proof {
                        assert(i == tokens@.len());
                        assert(views.len() == tokens@.len());
                    }
                    return Err(with_number("unclosed '(' at index ", i as u64));
                }
                proof {
                    assert(views.skip(i as int)[0] == tokens@[i as int]@);
                    if has_sexpr_prefix(t) && k < es.len() {
                        let u = es.skip(k);
                        assert(u[0] == es[k]);
                        assert(u.drop_first() =~= es.skip(k + 1));
                        assert(ser_list(u) == ser(es[k]) + ser_list(es.skip(k + 1)));
                        assert(views.skip(i as int) =~= ser(es[k]) + (ser_list(es.skip(k + 1))
                            + seq![TokenView::RParen] + target.1));
                        lemma_ser_first(es[k]);
                    }
                }
                match &tokens[i] {
                    Token::RParen => {
                        let r = SExpr::List(items);
                        proof {
                            assert(views.subrange(idx as int, i + 1) =~= views.subrange(
                                idx as int,
                                i as int,
                            ) + seq![TokenView::RParen]);
                            assert(sexpr_view(r) == SExprView::List(sexprs_view(items@)));
                        }
                        return Ok((r, i + 1));
                    },
                    _ => {
                        proof {
                            if has_sexpr_prefix(t) && k >= es.len() {
                                assert(es.skip(k) =~= Seq::<SExprView>::empty());
                                assert(views.skip(i as int)[0] == TokenView::RParen);
                            }
                        }
                        match parse_to_sexpr_core(tokens, i) {
                            Err(err) => {
                                proof {
                                    if has_sexpr_prefix(t) {
                                        let rest = ser_list(es.skip(k + 1)) + seq![TokenView::RParen]
                                            + target.1;
                                        assert(views.skip(i as int) == ser(es[k]) + rest);
                                        lemma_prefix_concat(ser(es[k]), rest);
                                        assert(has_sexpr_prefix(views.skip(i as int)));
                                    }
                                    assert(views[i as int] == tokens@[i as int]@);
                                    assert(!(views[i as int] is RParen));
                                }
                                return Err(err);
                            },
                            Ok((item, next_idx)) => {
                                let ghost prev_items = items@;
                                let ghost old_i = i;
                                proof {
                                    assert(views.skip(old_i as int) =~= views.subrange(
                                        old_i as int,
                                        next_idx as int,
                                    ) + views.skip(next_idx as int));
                                    if has_sexpr_prefix(t) {
                                        let rest = ser_list(es.skip(k + 1)) + seq![TokenView::RParen]
                                            + target.1;
                                        lemma_ser_unique(
                                            item@,
                                            views.skip(next_idx as int),
                                            es[k],
                                            rest,
                                        );
                                    }
                                }
                                i = next_idx;
                                items.push(item);
                                proof {
                                    lemma_sexprs_view_push(prev_items, item);
                                    lemma_ser_list_push(sexprs_view(prev_items), item@);
                                    assert(views.subrange(idx as int, i as int) =~= views.subrange(
                                        idx as int,
                                        old_i as int,
                                    ) + views.subrange(old_i as int, i as int));
                                    if has_sexpr_prefix(t) {
                                        assert(es.take(k + 1) =~= es.take(k).push(es[k]));
                                    }
                                }
                            },
                        }
                    },
                }
            }
        },
        Token::Atom(atom) => {
            let r = SExpr::Atom(atom.clone());
            proof {
                assert(views.subrange(idx as int, idx + 1) =~= seq![TokenView::Atom(atom@)]);
            }
            Ok((r, idx + 1))
        },
        Token::RParen => {
            proof {
                if has_sexpr_prefix(t) {
                    let e = choose|e: SExprView| #[trigger] ser(e).is_prefix_of(t);
                    lemma_ser_first(e);
                    assert(t[0] == ser(e)[0]);
                }
            }
            Err(with_number("unexpected opening token ')' at idx ", idx as u64))
        },
    }
}

/// Reads the tokens as exactly one s-expression: `Ok(e)` when the tokens
/// write `e` down, an error when they write down no s-expression or leave
/// tokens after it.
pub fn parse_to_sexpr(tokens: &[Token]) -> (r: Result<SExpr, String>)
    ensures
        r matches Ok(e) ==> ser(e@) == token_views(tokens@),
        r is Err ==> forall|e: SExprView| #[trigger] ser(e) != token_views(tokens@),
        r matches Err(m) ==> m@ == parse_error(token_views(tokens@)),
        forall|e: SExprView|
            #[trigger] ser(e) == token_views(tokens@) ==> (r matches Ok(x) && x@ == e),
{
    let ghost views = token_views(tokens@);
    proof {
        assert(views.skip(0) =~= views);
    }
    match parse_to_sexpr_core(tokens, 0) {
        Err(err) => {
            proof {
                assert forall|e: SExprView| #[trigger] ser(e) != views by {
                    if ser(e) == views {
                        lemma_prefix_concat(ser(e), Seq::<TokenView>::empty());
                        assert(ser(e) + Seq::<TokenView>::empty() =~= views);
                    }
                }
            }
            Err(err)
        },
        Ok((sexpr, idx)) => {
            if idx != tokens.len() {
                proof {
                    assert(views =~= views.subrange(0, idx as int) + views.skip(idx as int));
                    assert forall|e: SExprView| #[trigger] ser(e) != views by {
                        if ser(e) == views {
                            assert(ser(e) + Seq::<TokenView>::empty() =~= views);
                            lemma_ser_unique(
                                sexpr@,
                                views.skip(idx as int),
                                e,
                                Seq::<TokenView>::empty(),
                            );
                        }
                    }
                    let ghost e0 = choose|e: SExprView| #[trigger] ser(e).is_prefix_of(views);
                    lemma_prefix_concat(ser(sexpr@), views.skip(idx as int));
                    assert(ser(sexpr@).is_prefix_of(views));
                    assert(has_sexpr_prefix(views));
                    lemma_prefix_split(ser(e0), views);
                    lemma_ser_unique(
                        sexpr@,
                        views.skip(idx as int),
                        e0,
                        views.skip(ser(e0).len() as int),
                    );
                    assert(ser(e0).len() == idx);
                }
                return Err(
                    with_number("tokens found after parsing s-expression at index ", idx as u64),
                );
            }
            proof {
                assert(views.subrange(0, idx as int) =~= views);
                assert forall|e: SExprView| #[trigger] ser(e) == views implies sexpr@ == e by {
                    assert(ser(e) + Seq::<TokenView>::empty() =~= views);
                    assert(ser(sexpr@) + Seq::<TokenView>::empty() =~= views);
                    lemma_ser_unique(
                        sexpr@,
                        Seq::<TokenView>::empty(),
                        e,
                        Seq::<TokenView>::empty(),
                    );
                }
            }
            Ok(sexpr)
        },
    }
}

// "Symbol" is an overloaded word: it names both the lexed name of an
// identifier and its numeric id. `SymName` is the name, `IdSy` the id.
/// The lexed name of an identifier.
pub type SymName = String;

/// The numeric id of a symbol.
pub type IdSy = u32;

/// The index of a term in an arena.
pub type IdTm = u32;

/// The index of a formula in an arena.
pub type IdFo = u32;

/// A first order term.
#[derive(Debug)]
pub enum Term {
    Var(IdSy),
}

/// A first order formula whose subterms and subformulas live in an arena.
#[derive(Debug)]
pub enum Form {
    Top,
    Bot,
    Prd(IdSy, Vec<IdTm>),
    Equ(IdTm, IdTm),
    Neg(IdFo),
    Con(IdFo, IdFo),
    Dis(IdFo, IdFo),
    Imp(IdFo, IdFo),
    Iff(IdFo, IdFo),
    All(IdSy, IdFo),
    Ext(IdSy, IdFo),
}

/// The terms and formulas of one first order formula, each found by index.
#[derive(Debug, Default)]
pub struct FolFormArena {
    pub terms: Vec<Term>,
    pub forms: Vec<Form>,
}

impl FolFormArena {
    /// An arena with no terms and no formulas.
    pub fn new() -> (r: Self)
        ensures
            r.terms@.len() == 0,
            r.forms@.len() == 0,
    {
        FolFormArena { terms: Vec::new(), forms: Vec::new() }
    }

    /// Adds `t` and gives its index: the number of terms before it, cut to
    /// the width of [`IdTm`].
    pub fn new_term(&mut self, t: Term) -> (r: IdTm)
        ensures
            r == old(self).terms@.len() as IdTm,
            final(self).terms@ == old(self).terms@.push(t),
            final(self).forms@ == old(self).forms@,
    {
        let id = self.terms.len() as IdTm;
        self.terms.push(t);
        id
    }

    /// Adds `f` and gives its index: the number of formulas before it, cut
    /// to the width of [`IdFo`].
    pub fn new_form(&mut self, f: Form) -> (r: IdFo)
        ensures
            r == old(self).forms@.len() as IdFo,
            final(self).forms@ == old(self).forms@.push(f),
            final(self).terms@ == old(self).terms@,
    {
        let id = self.forms.len() as IdFo;
        self.forms.push(f);
        id
    }

    /// The term with index `id`.
    pub fn get_term(&self, id: IdTm) -> (r: &Term)
        requires
            id < self.terms@.len(),
        ensures
            *r == self.terms@[id as int],
    {
        &self.terms[id as usize]
    }

    /// The formula with index `id`.
    pub fn get_form(&self, id: IdFo) -> (r: &Form)
        requires
            id < self.forms@.len(),
        ensures
            *r == self.forms@[id as int],
    {
        &self.forms[id as usize]
    }
}

/// A first order formula: its root and the arena of its parts.
#[derive(Debug)]
pub struct FolForm {
    pub root: Form,
    pub arena: FolFormArena,
}

/// Lowers an s-expression to a first order formula. Lowering is not
/// written yet: every s-expression gives the formula `Top` over an empty
/// arena.
pub fn lower_to_fol(sexpr: &SExpr) -> (r: Result<FolForm, String>)
    ensures
        r matches Ok(f) && f.root is Top && f.arena.terms@.len() == 0 && f.arena.forms@.len()
            == 0,
{
    let arena = FolFormArena::new();
    let root = Form::Top;
    Ok(FolForm { root, arena })
}

/// Parses the s-expression syntax of first order formulas: lexes `input`,
/// reads the tokens as one s-expression and lowers it. An error exactly
/// when the tokens write down no single s-expression.
pub fn parse_sfol(input: &str) -> (r: Result<FolForm, String>)
    ensures
        r is Ok <==> exists|e: SExprView| #[trigger] ser(e) == lex(input@),
        r matches Err(m) ==> m@ == parse_error(lex(input@)),
        r matches Ok(f) ==> f.root is Top && f.arena.terms@.len() == 0 && f.arena.forms@.len()
            == 0,
{
    let tokens = match lex_to_tokens(input) {
        Ok(tokens) => tokens,
        Err(err) => {
            return Err(err);
        },
    };
    let sexpr = match parse_to_sexpr(tokens.as_slice()) {
        Ok(sexpr) => sexpr,
        Err(err) => {
            return Err(err);
        },
    };
    proof {
        assert(ser(sexpr@) == lex(input@));
    }
    lower_to_fol(&sexpr)
}

} // verus!
