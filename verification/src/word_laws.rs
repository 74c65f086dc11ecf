//! What words mean: which of them are numbers, how they compare, and what the extremes of
//! two and clamping give.

use vstd::arithmetic::power2::{
    lemma2_to64, lemma2_to64_rest, lemma_pow2_adds, lemma_pow2_pos, pow2,
};
use vstd::prelude::*;

use crate::cost::PENALTY;
use crate::observe::FREQUENCY_UNIT;
use crate::rounding::number;
use crate::swarm::{COGNITIVE_PULL, INERTIA, SOCIAL_PULL};
use crate::word::{
    at_most, clamped, finite, greater, less, lesser, nan, value, zero, Real, FIFTEEN, FIVE, HALF,
    HUNDRED, HUNDREDTH, INFINITY, MINUS_FIVE, MINUS_TEN, MINUS_TENTH, MINUS_THREE, NEG_INFINITY,
    ONE, TEN, TENTH, ZERO,
};

verus! {

/// The eleven bits below the sign.
pub open spec fn exponent_bits(x: Real) -> int {
    (x as int / 0x10_0000_0000_0000) % 0x800
}

/// The low fifty-two bits.
pub open spec fn fraction_bits(x: Real) -> int {
    x as int % 0x10_0000_0000_0000
}

/// A word is finite unless all exponent bits are set. With all of them set it is an
/// infinity if the fraction is zero, and no number otherwise. It is zero if all bits but
/// the sign are.
pub proof fn law_classes(x: Real)
    ensures
        finite(x) <==> exponent_bits(x) != 0x7ff,
        nan(x) <==> exponent_bits(x) == 0x7ff && fraction_bits(x) != 0,
        x == INFINITY || x == NEG_INFINITY <==> exponent_bits(x) == 0x7ff && fraction_bits(x) == 0,
        zero(x) <==> exponent_bits(x) == 0 && fraction_bits(x) == 0,
{
    let u = 0x10_0000_0000_0000int;
    let (q, r) = (x as int / u, x as int % u);
    assert(x as int == q * u + r);
    assert(0 <= q < 0x1000);
    assert(exponent_bits(x) == if q >= 0x800 {
        q - 0x800
    } else {
        q
    });
}

/// Of two words that are numbers the one is less, or the other, or neither; then both are at
/// most the other. Every number is at most plus infinity and at least minus infinity, and
/// all others lie strictly between these.
pub proof fn law_order_is_total(x: Real, y: Real)
    requires
        !nan(x),
        !nan(y),
    ensures
        !(less(x, y) && less(y, x)),
        at_most(x, y) <==> !less(y, x),
        less(x, y) || less(y, x) || (at_most(x, y) && at_most(y, x)),
        at_most(x, y) && at_most(y, x) <==> x == y || zero(x) && zero(y),
        less(x, INFINITY) <==> x != INFINITY,
        less(NEG_INFINITY, x) <==> x != NEG_INFINITY,
{
}

/// The order is transitive.
pub proof fn law_order_is_transitive(x: Real, y: Real, z: Real)
    ensures
        less(x, y) && less(y, z) ==> less(x, z),
        at_most(x, y) && at_most(y, z) ==> at_most(x, z),
        less(x, y) && at_most(y, z) ==> less(x, z),
        at_most(x, y) && less(y, z) ==> less(x, z),
{
}

/// Of two numbers the lesser is one of them and at most both, and the greater is one of them
/// and at least both. Of a number and what is none either is the number.
pub proof fn law_extremes(x: Real, y: Real)
    ensures
        !nan(x) && !nan(y) ==> {
            &&& lesser(x, y) == x || lesser(x, y) == y
            &&& at_most(lesser(x, y), x) && at_most(lesser(x, y), y)
            &&& greater(x, y) == x || greater(x, y) == y
            &&& at_most(x, greater(x, y)) && at_most(y, greater(x, y))
        },
        nan(x) ==> lesser(x, y) == y && greater(x, y) == y,
        nan(y) && !nan(x) ==> lesser(x, y) == x && greater(x, y) == x,
{
}

/// Clamping leaves a number between the bounds as it is, takes one below to the lower bound
/// and one above to the upper, and leaves what is no number.
pub proof fn law_clamped_by_cases(x: Real, lo: Real, hi: Real)
    requires
        at_most(lo, hi),
    ensures
        at_most(lo, x) && at_most(x, hi) ==> clamped(x, lo, hi) == x,
        less(x, lo) ==> clamped(x, lo, hi) == lo,
        less(hi, x) ==> clamped(x, lo, hi) == hi,
        nan(x) ==> clamped(x, lo, hi) == x,
{
}

/// The number of a positive word below 2^53, from its exponent and fraction bits; `p` is the
/// power of two that the fraction is counted in.
proof fn lemma_number_of(x: Real, e: int, m: int, p: int)
    requires
        0 < e <= 1075,
        0 <= m < 0x10_0000_0000_0000,
        x == e * 0x10_0000_0000_0000 + m,
        p == pow2((1075 - e) as nat),
    ensures
        number(x) * p as real == (0x10_0000_0000_0000 + m) as real,
{
    let n = 0x10_0000_0000_0000 + m;
    let (a, b) = (pow2((e - 1) as nat), pow2((1075 - e) as nat));
    lemma_pow2_adds((e - 1) as nat, (1075 - e) as nat);
    lemma_pow2_pos((e - 1) as nat);
    lemma_pow2_pos((1075 - e) as nat);
    assert(pow2(1074) == a * b);
    assert(x as int / 0x10_0000_0000_0000 == e && x as int % 0x10_0000_0000_0000 == m);
    assert(value(x) == n * a);
    let (rn, ra, rb) = (n as real, a as real, b as real);
    assert((n * a) as real == rn * ra) by (nonlinear_arith)
        requires
            rn == n as real,
            ra == a as real,
    ;
    assert((a * b) as real == ra * rb) by (nonlinear_arith)
        requires
            ra == a as real,
            rb == b as real,
    ;
    let y = number(x);
    assert(y == (rn * ra) / (ra * rb));
    assert(y * rb == rn) by (nonlinear_arith)
        requires
            y == (rn * ra) / (ra * rb),
            ra > 0 as real,
            rb > 0 as real,
    ;
}

/// The words of the parameter bounds are what they are named, and the factors of a move are
/// 0.7298 and 1.4962 to the nearest.
pub proof fn law_named_numbers()
    ensures
        number(ONE) == 1 as real,
        number(HALF) * 2 as real == 1 as real,
        number(FIVE) == 5 as real,
        number(TEN) == 10 as real,
        number(FIFTEEN) == 15 as real,
        number(HUNDRED) == 100 as real,
        number(INERTIA) * 10000 as real - 7298 as real <= 1 as real / 1000000000000 as real,
        7298 as real - number(INERTIA) * 10000 as real <= 1 as real / 1000000000000 as real,
        COGNITIVE_PULL == SOCIAL_PULL,
        number(SOCIAL_PULL) * 10000 as real - 14962 as real <= 1 as real / 100000000000 as real,
        14962 as real - number(SOCIAL_PULL) * 10000 as real <= 1 as real / 100000000000 as real,
{
    lemma2_to64();
    lemma2_to64_rest();
    lemma_number_of(ONE, 0x3ff, 0, 0x10000000000000);
    lemma_number_of(HALF, 0x3fe, 0, 0x20000000000000);
    lemma_number_of(FIVE, 0x401, 0x4_0000_0000_0000, 0x4000000000000);
    lemma_number_of(TEN, 0x402, 0x4_0000_0000_0000, 0x2000000000000);
    lemma_number_of(FIFTEEN, 0x402, 0xe_0000_0000_0000, 0x2000000000000);
    lemma_number_of(HUNDRED, 0x405, 0x9_0000_0000_0000, 0x400000000000);
    lemma_number_of(INERTIA, 0x3fe, 0x7_5a85_8793_dd98, 0x20000000000000);
    lemma_number_of(SOCIAL_PULL, 0x3ff, 0x7_f06f_6944_6738, 0x10000000000000);
}

/// The penalty is ten thousand million and the unit of frequency 10^15, and a tenth and a
/// hundredth are so to the nearest.
pub proof fn law_named_scales()
    ensures
        number(PENALTY) == 10000000000 as real,
        number(FREQUENCY_UNIT) == 1000000000000000 as real,
        number(TENTH) * 10 as real - 1 as real <= 1 as real / 1000000000000000 as real,
        1 as real - number(TENTH) * 10 as real <= 1 as real / 1000000000000000 as real,
        number(HUNDREDTH) * 100 as real - 1 as real <= 1 as real / 1000000000000000 as real,
        1 as real - number(HUNDREDTH) * 100 as real <= 1 as real / 1000000000000000 as real,
        number(MINUS_TENTH) == -number(TENTH),
{
    lemma2_to64();
    lemma2_to64_rest();
    lemma_number_of(PENALTY, 0x420, 0x2_a05f_2000_0000, 0x80000);
    lemma_number_of(FREQUENCY_UNIT, 0x430, 0xc_6bf5_2634_0000, 0x8);
    lemma_number_of(TENTH, 0x3fb, 0x9_9999_9999_999a, 0x100000000000000);
    lemma_number_of(HUNDREDTH, 0x3f8, 0x4_7ae1_47ae_147b, 0x800000000000000);
    assert(value(MINUS_TENTH) == -value(TENTH));
    lemma_negated(value(TENTH));
}

/// The negative words of the parameter bounds are what they are named.
pub proof fn law_negated_numbers()
    ensures
        number(MINUS_TEN) == -number(TEN),
        number(MINUS_FIVE) == -number(FIVE),
        number(MINUS_THREE) == -(3 as real),
        number(ZERO) == 0 as real,
{
    lemma2_to64();
    lemma2_to64_rest();
    let three: Real = 0x4008_0000_0000_0000;
    lemma_number_of(three, 0x400, 0x8_0000_0000_0000, 0x8000000000000);
    assert(number(three) == 3 as real);
    assert(value(MINUS_TEN) == -value(TEN));
    assert(value(MINUS_FIVE) == -value(FIVE));
    assert(value(MINUS_THREE) == -value(three));
    assert(value(ZERO) == 0);
    lemma_negated(value(TEN));
    lemma_negated(value(FIVE));
    lemma_negated(value(three));
    lemma_negated(0);
}

proof fn lemma_negated(v: int)
    ensures
        (-v) as real / pow2(1074) as real == -(v as real / pow2(1074) as real),
        v == 0 ==> v as real / pow2(1074) as real == 0 as real,
{
    lemma_pow2_pos(1074);
    let (a, b, e) = (v as real, (-v) as real, pow2(1074) as real);
    assert(b == -a);
    assert((-a) / e == -(a / e)) by (nonlinear_arith)
        requires
            e > 0 as real,
    ;
    assert((0 as real) / e == 0 as real) by (nonlinear_arith)
        requires
            e > 0 as real,
    ;
}

} // verus!
