//! Logical literals packed in one word: the token shifted left by one, with
//! the negation bit below it.
use vstd::prelude::*;

verus! {

/// A logical literal, encoded as
/// ```text
/// [ 31 bit token | 1 negation bit ]
/// ```
/// The token `0` is rejected, as `0` and negated `0` cannot both be mapped
/// to integers.
#[derive(Debug, Clone, PartialEq, Eq, Structural)]
pub struct Lit {
    pub v: u32,
}

/// Why an integer and a literal cannot be converted.
#[derive(Debug, PartialEq, Eq, Structural)]
pub enum LitCastError {
    /// The integer or the token is zero.
    Zero,
    /// The integer's absolute value does not fit in 31 bits.
    Overflow,
}

/// The literal of the nonzero integer `l`: the token is `|l|`, negated
/// when `l < 0`.
pub open spec fn lit_of_int(l: i32) -> Result<Lit, LitCastError> {
    if l == 0 {
        Err(LitCastError::Zero)
    } else if l == i32::MIN {
        Err(LitCastError::Overflow)
    } else {
        let token: int = if l < 0 {
            -l
        } else {
            l as int
        };
        Ok(Lit { v: (2 * token + if l < 0 { 1int } else { 0int }) as u32 })
    }
}

/// The token of a literal.
pub open spec fn spec_token(lit: Lit) -> int {
    lit.v as int / 2
}

/// Whether a literal is negated.
pub open spec fn spec_negated(lit: Lit) -> bool {
    lit.v % 2 == 1
}

/// The integer of a literal: its token, with the sign of the negation bit.
pub open spec fn int_of_lit(lit: Lit) -> Result<i32, LitCastError> {
    if spec_token(lit) == 0 {
        Err(LitCastError::Zero)
    } else if spec_negated(lit) {
        Ok((-spec_token(lit)) as i32)
    } else {
        Ok(spec_token(lit) as i32)
    }
}

// cast an integer to a literal
impl TryFrom<i32> for Lit {
    type Error = LitCastError;

    fn try_from(l: i32) -> (r: Result<Self, Self::Error>) {
        if l == 0 {
            return Err(LitCastError::Zero);
        }
        let token: u32 = if l < 0 {
            (-(l as i64)) as u32
        } else {
            l as u32
        };
        if (token & (1u32 << 31u32)) != 0 {
            assert(token == 0x8000_0000u32) by (bit_vector)
                requires
                    token <= 0x8000_0000u32,
                    token & (1u32 << 31u32) != 0,
            ;
            return Err(LitCastError::Overflow);
        }
        assert(token < 0x8000_0000u32) by (bit_vector)
            requires
                token & (1u32 << 31u32) == 0,
        ;
        let is_negated = l < 0;
        let b: u32 = if is_negated {
            1
        } else {
            0
        };
        let v = (token << 1u32) | b;
        assert(v == 2 * token + b) by (bit_vector)
            requires
                token < 0x8000_0000u32,
                b <= 1,
                v == (token << 1u32) | b,
        ;
        Ok(Self { v })
    }
}

impl vstd::std_specs::convert::TryFromSpecImpl<i32> for Lit {
    open spec fn obeys_try_from_spec() -> bool {
        true
    }

    open spec fn try_from_spec(l: i32) -> Result<Lit, LitCastError> {
        lit_of_int(l)
    }
}

// cast a literal to an integer
impl TryFrom<Lit> for i32 {
    type Error = LitCastError;

    fn try_from(l: Lit) -> (r: Result<Self, Self::Error>) {
        let x: u32 = l.v;
        let token = x >> 1u32;
        assert(token == x / 2) by (bit_vector)
            requires
                token == x >> 1u32,
        ;
        if token == 0 {
            return Err(LitCastError::Zero);
        }
        // multiply by +1 for truths and -1 for falsities
        let magnitude = token as i32;
        let neg: i32 = if l.is_negated() {
            1
        } else {
            0
        };
        let sign: i32 = 1 - neg * 2;
        assert(magnitude * sign == if neg == 1 { -magnitude } else { magnitude as int })
            by (nonlinear_arith)
            requires
                neg == 0 || neg == 1,
                sign == 1 - neg * 2,
        ;
        Ok(magnitude * sign)
    }
}

impl vstd::std_specs::convert::TryFromSpecImpl<Lit> for i32 {
    open spec fn obeys_try_from_spec() -> bool {
        true
    }

    open spec fn try_from_spec(l: Lit) -> Result<i32, LitCastError> {
        int_of_lit(l)
    }
}

impl Lit {
    /// The token: the literal without its negation bit.
    pub fn get_token(&self) -> (r: u32)
        ensures
            r == spec_token(*self),
    {
        let x: u32 = self.v;
        let r = x >> 1u32;
        assert(r == x / 2) by (bit_vector)
            requires
                r == x >> 1u32,
        ;
        r
    }

    /// Whether the negation bit is set.
    pub fn is_negated(&self) -> (r: bool)
        ensures
            r == spec_negated(*self),
    {
        let x: u32 = self.v;
        let b = x & 1u32;
        assert(b == x % 2) by (bit_vector)
            requires
                b == x & 1u32,
        ;
        b == 1
    }

    /// The literal with the negation bit flipped.
    pub fn negate(&self) -> (r: Self)
        ensures
            spec_token(r) == spec_token(*self),
            spec_negated(r) == !spec_negated(*self),
            r.v == if spec_negated(*self) {
                self.v - 1
            } else {
                self.v + 1
            },
    {
        let x: u32 = self.v;
        let v = x ^ 1u32;
        assert(v == if x % 2 == 1 { (x - 1) as u32 } else { (x + 1) as u32 }) by (bit_vector)
            requires
                v == x ^ 1u32,
        ;
        Self { v }
    }
}

/// Casting a nonzero integer in range to a literal and back gives the
/// integer again.
pub proof fn lemma_int_lit_round_trip(l: i32)
    requires
        l != 0,
        l != i32::MIN,
    ensures
        lit_of_int(l) is Ok,
        int_of_lit(lit_of_int(l)->Ok_0) == Ok::<i32, LitCastError>(l),
{
}

/// Casting a literal with a nonzero token to an integer and back gives the
/// literal again.
pub proof fn lemma_lit_int_round_trip(lit: Lit)
    requires
        spec_token(lit) != 0,
    ensures
        int_of_lit(lit) is Ok,
        lit_of_int(int_of_lit(lit)->Ok_0) == Ok::<Lit, LitCastError>(lit),
{
}

/// The literal of an integer carries its absolute value as token and its
/// sign as negation bit.
pub proof fn lemma_lit_of_int_parts(l: i32)
    requires
        l != 0,
        l != i32::MIN,
    ensures
        spec_token(lit_of_int(l)->Ok_0) == (if l < 0 {
            -l
        } else {
            l as int
        }),
        spec_negated(lit_of_int(l)->Ok_0) == (l < 0),
{
}

/// Flipping the negation bit twice gives the literal back.
pub proof fn lemma_negate_involutive(lit: Lit, once: Lit, twice: Lit)
    requires
        spec_token(once) == spec_token(lit),
        spec_negated(once) == !spec_negated(lit),
        spec_token(twice) == spec_token(once),
        spec_negated(twice) == !spec_negated(once),
    ensures
        twice == lit,
{
}

/// Negating a literal negates its integer.
pub proof fn lemma_negate_int(lit: Lit, neg: Lit)
    requires
        spec_token(lit) != 0,
        spec_token(neg) == spec_token(lit),
        spec_negated(neg) == !spec_negated(lit),
    ensures
        int_of_lit(neg) == Ok::<i32, LitCastError>(-(int_of_lit(lit)->Ok_0) as i32),
{
}

} // verus!
