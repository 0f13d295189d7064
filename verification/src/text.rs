//! Characters and strings: the few operations of `std` on text that the
//! front ends build on.
use vstd::prelude::*;

verus! {

/// The characters of `s`, in order.
pub fn chars_of(s: &str) -> (r: Vec<char>)
    ensures
        r@ == s@,
{
    let mut r: Vec<char> = Vec::new();
    for c in it: s.chars()
        invariant
            r@ == it.seq().take(it.index()),
            it.seq() == s@,
    {
        r.push(c);
    }
    r
}

/// Calls `String::push`, which appends the character `c` to `s`.
#[verifier::external_body]
fn push_char(s: &mut String, c: char)
    ensures
        final(s)@ == old(s)@.push(c),
{
    s.push(c);
}

/// The string with the characters of `cs`, in order.
pub fn string_from_chars(cs: &[char]) -> (r: String)
    ensures
        r@ == cs@,
{
    let mut r = String::new();
    let n = cs.len();
    for i in 0..n
        invariant
            n == cs@.len(),
            r@ == cs@.take(i as int),
    {
        push_char(&mut r, cs[i]);
        assert(r@ =~= cs@.take(i + 1));
    }
    assert(cs@.take(n as int) =~= cs@);
    r
}

/// Whether `c` has the Unicode `White_Space` property: the 25 code points
/// that the Unicode Character Database lists for it in `PropList.txt`.
pub open spec fn white_space(c: char) -> bool {
    let u = c as u32;
    ||| 0x09 <= u <= 0x0D
    ||| u == 0x20
    ||| u == 0x85
    ||| u == 0xA0
    ||| u == 0x1680
    ||| 0x2000 <= u <= 0x200A
    ||| u == 0x2028
    ||| u == 0x2029
    ||| u == 0x202F
    ||| u == 0x205F
    ||| u == 0x3000
}

/// Calls `char::is_whitespace`, which the documentation describes as
/// whether `c` has the Unicode `White_Space` property; the contract states
/// that property as its list of code points, [`white_space`].
#[verifier::external_body]
pub(crate) fn is_whitespace(c: char) -> (r: bool)
    ensures
        r == white_space(c),
{
    c.is_whitespace()
}

/// `c` is one of the ASCII digits `0` to `9`.
pub open spec fn is_digit(c: char) -> bool {
    '0' <= c <= '9'
}

/// The number that the decimal digits `d` spell.
pub open spec fn digits_value(d: Seq<char>) -> int
    decreases d.len(),
{
    if d.len() == 0 {
        0
    } else {
        digits_value(d.drop_last()) * 10 + ((d.last() as int) - ('0' as int))
    }
}

/// What `i32::from_str` gives for `s`: an optional `+` or `-` sign followed
/// by at least one decimal digit and nothing else, whose value fits in `i32`.
pub open spec fn parse_i32_spec(s: Seq<char>) -> Option<i32> {
    let neg = s.len() > 0 && s[0] == '-';
    let signed = s.len() > 0 && (s[0] == '-' || s[0] == '+');
    let d = if signed {
        s.drop_first()
    } else {
        s
    };
    let v = if neg {
        -digits_value(d)
    } else {
        digits_value(d)
    };
    if d.len() > 0 && (forall|k: int| 0 <= k < d.len() ==> #[trigger] is_digit(d[k])) && i32::MIN
        <= v <= i32::MAX {
        Some(v as i32)
    } else {
        None
    }
}

/// Calls `str::parse::<i32>` and keeps the value; an error becomes `None`.
/// The contract states the format that the documentation of
/// `i32::from_str_radix` gives for radix 10.
#[verifier::external_body]
pub(crate) fn parse_i32(s: &str) -> (r: Option<i32>)
    ensures
        r == parse_i32_spec(s@),
{
    s.parse::<i32>().ok()
}

/// `s` cut at every character `c` with `sep(c)`. The separators are dropped,
/// so `n` separators give `n + 1` pieces, some of them possibly empty.
pub open spec fn split_at_seps(s: Seq<char>, sep: spec_fn(char) -> bool) -> Seq<Seq<char>>
    decreases s.len(),
{
    if s.len() == 0 {
        seq![Seq::<char>::empty()]
    } else {
        let p = split_at_seps(s.drop_last(), sep);
        if sep(s.last()) {
            p.push(Seq::<char>::empty())
        } else {
            p.update(p.len() - 1, p.last().push(s.last()))
        }
    }
}

/// Splitting always gives at least one piece.
pub proof fn lemma_split_nonempty(s: Seq<char>, sep: spec_fn(char) -> bool)
    ensures
        split_at_seps(s, sep).len() >= 1,
    decreases s.len(),
{
    if s.len() > 0 {
        lemma_split_nonempty(s.drop_last(), sep);
    }
}

/// The separator predicate of whitespace.
pub open spec fn ws_sep() -> spec_fn(char) -> bool {
    |c: char| white_space(c)
}

/// The nonempty piece predicate.
pub open spec fn nonempty_piece() -> spec_fn(Seq<char>) -> bool {
    |w: Seq<char>| w.len() > 0
}

/// The words of `s`: its maximal runs of characters that are not
/// whitespace, as `str::split_whitespace` gives them.
pub open spec fn words(s: Seq<char>) -> Seq<Seq<char>> {
    split_at_seps(s, ws_sep()).filter(nonempty_piece())
}

/// Cutting at a separator: the pieces of `s1`, the separator `c`, then `s2`
/// are the pieces of `s1` followed by those of `s2`.
proof fn lemma_split_concat(s1: Seq<char>, c: char, s2: Seq<char>, sep: spec_fn(char) -> bool)
    requires
        sep(c),
    ensures
        split_at_seps(s1 + seq![c] + s2, sep) == split_at_seps(s1, sep) + split_at_seps(s2, sep),
    decreases s2.len(),
{
    let s = s1 + seq![c] + s2;
    if s2.len() == 0 {
        assert(s =~= s1.push(c));
        assert(s1.push(c).drop_last() =~= s1);
        assert(split_at_seps(s2, sep) == seq![Seq::<char>::empty()]);
        assert(split_at_seps(s, sep) =~= split_at_seps(s1, sep) + split_at_seps(s2, sep));
    } else {
        let x = s2.last();
        lemma_split_concat(s1, c, s2.drop_last(), sep);
        assert(s.drop_last() =~= s1 + seq![c] + s2.drop_last());
        assert(s.last() == x);
        lemma_split_nonempty(s2.drop_last(), sep);
        let a = split_at_seps(s1, sep);
        let b = split_at_seps(s2.drop_last(), sep);
        if sep(x) {
            assert(split_at_seps(s, sep) =~= a + b.push(Seq::<char>::empty()));
        } else {
            assert((a + b).last() == b.last());
            assert(split_at_seps(s, sep) =~= a + b.update(b.len() - 1, b.last().push(x)));
        }
    }
}

/// A whitespace character separates words: the words of `s1`, a whitespace
/// character `c` and `s2` are the words of `s1` followed by those of `s2`.
pub proof fn lemma_words_split_at_whitespace(s1: Seq<char>, c: char, s2: Seq<char>)
    requires
        white_space(c),
    ensures
        words(s1 + seq![c] + s2) == words(s1) + words(s2),
{
    lemma_split_concat(s1, c, s2, ws_sep());
    Seq::<Seq<char>>::filter_distributes_over_add(
        split_at_seps(s1, ws_sep()),
        split_at_seps(s2, ws_sep()),
        nonempty_piece(),
    );
}

/// A nonempty run of characters none of which is whitespace is one word;
/// text with no characters has no word.
pub proof fn lemma_words_of_run(s: Seq<char>)
    requires
        forall|k: int| 0 <= k < s.len() ==> !white_space(#[trigger] s[k]),
    ensures
        s.len() > 0 ==> words(s) == seq![s],
        s.len() == 0 ==> words(s) == Seq::<Seq<char>>::empty(),
{
    lemma_split_run(s);
    reveal(Seq::filter);
    if s.len() > 0 {
        assert(seq![s].drop_last() =~= Seq::<Seq<char>>::empty());
        assert(seq![s].filter(nonempty_piece()) =~= seq![s]);
    } else {
        assert(seq![s].drop_last() =~= Seq::<Seq<char>>::empty());
        assert(Seq::<Seq<char>>::empty().filter(nonempty_piece()) =~= Seq::<Seq<char>>::empty());
        assert(!nonempty_piece()(s));
        assert(seq![s].filter(nonempty_piece()) =~= Seq::<Seq<char>>::empty());
    }
}

proof fn lemma_split_run(s: Seq<char>)
    requires
        forall|k: int| 0 <= k < s.len() ==> !white_space(#[trigger] s[k]),
    ensures
        split_at_seps(s, ws_sep()) == seq![s],
    decreases s.len(),
{
    if s.len() > 0 {
        assert forall|k: int| 0 <= k < s.drop_last().len() implies !white_space(
            #[trigger] s.drop_last()[k],
        ) by {
            assert(s.drop_last()[k] == s[k]);
        }
        lemma_split_run(s.drop_last());
        assert(!white_space(s[s.len() - 1]));
        assert(split_at_seps(s, ws_sep()) =~= seq![s.drop_last().push(s.last())]);
        assert(s.drop_last().push(s.last()) =~= s);
    } else {
        assert(s =~= Seq::<char>::empty());
    }
}

/// The views of a vector of character vectors.
pub open spec fn char_vec_views(v: Seq<Vec<char>>) -> Seq<Seq<char>> {
    v.map_values(|w: Vec<char>| w@)
}

/// The words of `line`, in order.
pub fn split_words(line: &[char]) -> (r: Vec<Vec<char>>)
    ensures
        char_vec_views(r@) == words(line@),
{
    let mut r: Vec<Vec<char>> = Vec::new();
    let mut cur: Vec<char> = Vec::new();
    let n = line.len();
    for k in 0..n
        invariant
            n == line@.len(),
            split_at_seps(line@.take(k as int), ws_sep()).len() >= 1,
            cur@ == split_at_seps(line@.take(k as int), ws_sep()).last(),
            char_vec_views(r@) == split_at_seps(line@.take(k as int), ws_sep()).drop_last().filter(
                nonempty_piece(),
            ),
    {
        let c = line[k];
        let ghost p = split_at_seps(line@.take(k as int), ws_sep());
        proof {
            assert(line@.take(k + 1).drop_last() =~= line@.take(k as int));
            assert(line@.take(k + 1).last() == c);
        }
        if is_whitespace(c) {
            let ghost pr = r@;
            if cur.len() > 0 {
                r.push(cur);
                proof {
                    p.drop_last().lemma_filter_push(p.last(), nonempty_piece());
                    assert(p.drop_last().push(p.last()) =~= p);
                    assert(char_vec_views(r@) =~= char_vec_views(pr).push(p.last()));
                }
            } else {
                proof {
                    p.drop_last().lemma_filter_push(p.last(), nonempty_piece());
                    assert(p.drop_last().push(p.last()) =~= p);
                }
            }
            cur = Vec::new();
            proof {
                let p2 = split_at_seps(line@.take(k + 1), ws_sep());
                assert(p2 == p.push(Seq::<char>::empty()));
                assert(p2.drop_last() =~= p);
            }
        } else {
            cur.push(c);
            proof {
                let p2 = split_at_seps(line@.take(k + 1), ws_sep());
                assert(p2 == p.update(p.len() - 1, p.last().push(c)));
                assert(p2.drop_last() =~= p.drop_last());
            }
        }
    }
    proof {
        assert(line@.take(n as int) =~= line@);
    }
    let ghost p = split_at_seps(line@, ws_sep());
    let ghost pr = r@;
    proof {
        p.drop_last().lemma_filter_push(p.last(), nonempty_piece());
        assert(p.drop_last().push(p.last()) =~= p);
    }
    if cur.len() > 0 {
        r.push(cur);
        proof {
            assert(char_vec_views(r@) =~= char_vec_views(pr).push(p.last()));
        }
    }
    r
}

/// The separator predicate of line ends.
pub open spec fn newline_sep() -> spec_fn(char) -> bool {
    |c: char| c == '\n'
}

/// A line without the carriage return that ended it, if any.
pub open spec fn strip_cr(l: Seq<char>) -> Seq<char> {
    if l.len() > 0 && l.last() == '\r' {
        l.drop_last()
    } else {
        l
    }
}

/// The lines of `s` as `BufRead::lines` gives them: cut at every `\n`, a
/// `\r` before the `\n` dropped, and no empty line after a final `\n`.
pub open spec fn text_lines(s: Seq<char>) -> Seq<Seq<char>> {
    let p = split_at_seps(s, newline_sep());
    let body = p.drop_last().map_values(|l: Seq<char>| strip_cr(l));
    if p.last().len() > 0 {
        body.push(p.last())
    } else {
        body
    }
}

/// The ASCII digit of `d`, for `d` below ten.
pub open spec fn digit_char(d: nat) -> char {
    (('0' as int) + d) as char
}

/// The decimal numeral of `n`, most significant digit first, without
/// leading zeros; `0` is the single digit `0`.
pub open spec fn decimal(n: nat) -> Seq<char>
    decreases n,
{
    if n < 10 {
        seq![digit_char(n)]
    } else {
        decimal(n / 10).push(digit_char(n % 10))
    }
}

/// The decimal numeral of `n`, as the `Display` of an unsigned integer
/// writes it.
pub fn decimal_chars(n: u64) -> (r: Vec<char>)
    ensures
        r@ == decimal(n as nat),
        digits_value(r@) == n,
        forall|k: int| 0 <= k < r@.len() ==> #[trigger] is_digit(r@[k]),
    decreases n,
{
    proof {
        lemma_decimal_spells(n as nat);
    }
    let d: u8 = (n % 10) as u8;
    let c: char = (d + 48u8) as char;
    assert(c == digit_char((n % 10) as nat));
    if n < 10 {
        let mut r: Vec<char> = Vec::new();
        r.push(c);
        assert(r@ =~= seq![digit_char(n as nat)]);
        r
    } else {
        let mut r = decimal_chars(n / 10);
        r.push(c);
        r
    }
}

/// The decimal numeral spells its number: it is made of digits, their
/// value is `n`, and it has no leading zero unless it is the numeral `0`.
pub proof fn lemma_decimal_spells(n: nat)
    ensures
        decimal(n).len() > 0,
        forall|k: int| 0 <= k < decimal(n).len() ==> #[trigger] is_digit(decimal(n)[k]),
        digits_value(decimal(n)) == n,
        decimal(n).len() > 1 ==> decimal(n)[0] != '0',
        n > 0 ==> decimal(n)[0] != '0',
    decreases n,
{
    let d = digit_char(n % 10);
    assert((d as int) - ('0' as int) == n % 10);
    if n < 10 {
        assert(decimal(n) == seq![d]);
        assert(decimal(n).drop_last() =~= Seq::<char>::empty());
        assert(digits_value(decimal(n)) == digits_value(Seq::<char>::empty()) * 10 + (n % 10));
    } else {
        lemma_decimal_spells(n / 10);
        let p = decimal(n / 10);
        assert(decimal(n) == p.push(d));
        assert(p.push(d).drop_last() =~= p);
        assert(digits_value(decimal(n)) == digits_value(p) * 10 + (n % 10));
        assert(decimal(n)[0] == p[0]);
        assert forall|k: int| 0 <= k < decimal(n).len() implies #[trigger] is_digit(decimal(n)[k]) by {
            if k < p.len() {
                assert(decimal(n)[k] == p[k]);
            }
        }
    }
}

/// The pieces `parts` written one after the other, with `sep` between two
/// neighbours.
pub open spec fn join(parts: Seq<Seq<char>>, sep: Seq<char>) -> Seq<char>
    decreases parts.len(),
{
    if parts.len() == 0 {
        Seq::<char>::empty()
    } else if parts.len() == 1 {
        parts[0]
    } else {
        join(parts.drop_last(), sep) + sep + parts.last()
    }
}

/// Joining one more piece appends the separator, unless it is the first,
/// and the piece.
pub proof fn lemma_join_push(parts: Seq<Seq<char>>, sep: Seq<char>, k: int)
    requires
        0 <= k < parts.len(),
    ensures
        join(parts.take(k + 1), sep) == if k == 0 {
            parts[0]
        } else {
            join(parts.take(k), sep) + sep + parts[k]
        },
{
    assert(parts.take(k + 1).drop_last() =~= parts.take(k));
}

/// The pieces of `parts` joined with `sep` between neighbours.
pub fn join_chars(parts: Vec<Vec<char>>, sep: &Vec<char>) -> (r: Vec<char>)
    ensures
        r@ == join(char_vec_views(parts@), sep@),
{
    let ghost views = char_vec_views(parts@);
    let mut r: Vec<char> = Vec::new();
    let mut parts = parts;
    let n = parts.len();
    let mut k: usize = 0;
    let ghost orig = parts@;
    while k < n
        invariant
            n == orig.len(),
            views == char_vec_views(orig),
            parts@.len() == n,
            forall|j: int| k <= j < n ==> #[trigger] parts@[j]@ == orig[j]@,
            0 <= k <= n,
            r@ == join(views.take(k as int), sep@),
        decreases n - k,
    {
        proof {
            lemma_join_push(views, sep@, k as int);
        }
        if k > 0 {
            let mut s = sep.clone();
            r.append(&mut s);
        }
        let mut piece: Vec<char> = Vec::new();
        std::mem::swap(&mut piece, &mut parts[k]);
        assert(piece@ == views[k as int]);
        r.append(&mut piece);
        k = k + 1;
    }
    assert(views.take(n as int) =~= views);
    r
}

/// `prefix` followed by the decimal numeral of `n`.
pub fn with_number(prefix: &str, n: u64) -> (r: String)
    ensures
        r@ == prefix@ + decimal(n as nat),
{
    let digits = decimal_chars(n);
    let tail = string_from_chars(digits.as_slice());
    let mut r = String::from_str(prefix);
    r.append(tail.as_str());
    r
}

} // verus!
