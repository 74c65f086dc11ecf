//! Binary64 numbers as 64-bit words, with the comparisons that need no arithmetic.
//!
//! A word is the IEEE 754 encoding of a number: the top bit is the sign, the next
//! eleven bits the exponent, the rest the fraction. The encoding is arranged so that,
//! apart from the sign, words are ordered as the numbers that they stand for; all
//! tests of the fit (is it finite, which is smaller) are therefore tests on integers.

use vstd::prelude::*;
use vstd::arithmetic::power2::pow2;

verus! {

/// A number, given by its binary64 encoding.
pub type Real = u64;

/// The words from here on have the sign bit set.
pub const SIGN: Real = 0x8000_0000_0000_0000;

/// Positive zero.
pub const ZERO: Real = 0x0000_0000_0000_0000;

/// One.
pub const ONE: Real = 0x3ff0_0000_0000_0000;

/// One half.
pub const HALF: Real = 0x3fe0_0000_0000_0000;

/// Five.
pub const FIVE: Real = 0x4014_0000_0000_0000;

/// Ten.
pub const TEN: Real = 0x4024_0000_0000_0000;

/// Fifteen.
pub const FIFTEEN: Real = 0x402e_0000_0000_0000;

/// One hundred.
pub const HUNDRED: Real = 0x4059_0000_0000_0000;

/// The nearest number to one tenth.
pub const TENTH: Real = 0x3fb9_9999_9999_999a;

/// The nearest number to one hundredth.
pub const HUNDREDTH: Real = 0x3f84_7ae1_47ae_147b;

/// The negation of [`TENTH`].
pub const MINUS_TENTH: Real = 0xbfb9_9999_9999_999a;

/// Minus three.
pub const MINUS_THREE: Real = 0xc008_0000_0000_0000;

/// Minus five.
pub const MINUS_FIVE: Real = 0xc014_0000_0000_0000;

/// Minus ten.
pub const MINUS_TEN: Real = 0xc024_0000_0000_0000;

/// Positive infinity.
pub const INFINITY: Real = 0x7ff0_0000_0000_0000;

/// Negative infinity.
pub const NEG_INFINITY: Real = 0xfff0_0000_0000_0000;

/// The quiet not-a-number that the model answers with.
pub const NAN: Real = 0x7ff8_0000_0000_0000;

/// The sign bit of `x` is set.
pub open spec fn negative(x: Real) -> bool {
    x >= SIGN
}

/// The word without its sign bit.
pub open spec fn magnitude(x: Real) -> int {
    if negative(x) {
        x - SIGN
    } else {
        x as int
    }
}

/// `x` encodes no number.
pub open spec fn nan(x: Real) -> bool {
    magnitude(x) > INFINITY
}

/// `x` encodes a number that is not infinite.
pub open spec fn finite(x: Real) -> bool {
    magnitude(x) < INFINITY
}

/// The place of `x` among the words that encode numbers; both zeros have place 0.
pub open spec fn rank(x: Real) -> int {
    if negative(x) {
        -magnitude(x)
    } else {
        magnitude(x)
    }
}

/// `x < y`, which is false as soon as one of them is not a number.
pub open spec fn less(x: Real, y: Real) -> bool {
    !nan(x) && !nan(y) && rank(x) < rank(y)
}

/// `x <= y`, which is false as soon as one of them is not a number.
pub open spec fn at_most(x: Real, y: Real) -> bool {
    !nan(x) && !nan(y) && rank(x) <= rank(y)
}

/// `x == 0`, for either zero.
pub open spec fn zero(x: Real) -> bool {
    rank(x) == 0
}

/// The smaller of two numbers, or the one that is a number.
pub open spec fn lesser(x: Real, y: Real) -> Real {
    if nan(x) || less(y, x) {
        y
    } else {
        x
    }
}

/// The larger of two numbers, or the one that is a number.
pub open spec fn greater(x: Real, y: Real) -> Real {
    if nan(x) || less(x, y) {
        y
    } else {
        x
    }
}

/// `x` moved to the nearer end of `lo..=hi` where it lies outside; what is not a
/// number stays.
pub open spec fn clamped(x: Real, lo: Real, hi: Real) -> Real {
    if less(x, lo) {
        lo
    } else if less(hi, x) {
        hi
    } else {
        x
    }
}

/// The finite number encoded by a magnitude, counted in units of 2^-1074: the fraction
/// alone for exponent 0, otherwise the fraction below an implicit leading bit, shifted
/// by the exponent.
pub open spec fn absolute_value(m: int) -> int {
    let exponent = m / 0x10_0000_0000_0000;
    let fraction = m % 0x10_0000_0000_0000;
    if exponent == 0 {
        fraction
    } else {
        (0x10_0000_0000_0000 + fraction) * pow2((exponent - 1) as nat)
    }
}

/// The finite number that `x` encodes, counted in units of 2^-1074.
pub open spec fn value(x: Real) -> int {
    if negative(x) {
        -absolute_value(magnitude(x))
    } else {
        absolute_value(magnitude(x))
    }
}

/// Whether `x` is a number and not infinite.
pub fn is_finite(x: Real) -> (r: bool)
    ensures
        r == finite(x),
{
    if x >= SIGN {
        x < NEG_INFINITY
    } else {
        x < INFINITY
    }
}

/// Whether `x` is not a number.
pub fn is_nan(x: Real) -> (r: bool)
    ensures
        r == nan(x),
{
    if x >= SIGN {
        x > NEG_INFINITY
    } else {
        x > INFINITY
    }
}

/// Whether `x` is one of the two zeros.
pub fn is_zero(x: Real) -> (r: bool)
    ensures
        r == zero(x),
{
    x == ZERO || x == SIGN
}

/// Whether `x < y`.
pub fn lt(x: Real, y: Real) -> (r: bool)
    ensures
        r == less(x, y),
{
    if is_nan(x) || is_nan(y) {
        false
    } else if x >= SIGN {
        if y >= SIGN {
            y < x
        } else {
            x > SIGN || y > ZERO
        }
    } else {
        y < SIGN && x < y
    }
}

/// Whether `x <= y`.
pub fn le(x: Real, y: Real) -> (r: bool)
    ensures
        r == at_most(x, y),
{
    !is_nan(x) && !is_nan(y) && !lt(y, x)
}

/// The smaller of `x` and `y`.
pub fn min(x: Real, y: Real) -> (r: Real)
    ensures
        r == lesser(x, y),
{
    if is_nan(x) || lt(y, x) {
        y
    } else {
        x
    }
}

/// The larger of `x` and `y`.
pub fn max(x: Real, y: Real) -> (r: Real)
    ensures
        r == greater(x, y),
{
    if is_nan(x) || lt(x, y) {
        y
    } else {
        x
    }
}

/// `x` clamped to `lo..=hi`.
pub fn clamp(x: Real, lo: Real, hi: Real) -> (r: Real)
    requires
        at_most(lo, hi),
    ensures
        r == clamped(x, lo, hi),
{
    if lt(x, lo) {
        lo
    } else if lt(hi, x) {
        hi
    } else {
        x
    }
}

} // verus!
