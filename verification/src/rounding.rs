//! Facts of rounded arithmetic, which laws name as their premises, and the real numbers
//! that they speak of. Each fact holds of binary64 numbers rounded to the nearest.

use vstd::arithmetic::power2::{lemma_pow2_pos, pow2};
use vstd::prelude::*;

use crate::arith::{Arith, Op};
use crate::laws::law_order_is_numeric;
use crate::reals::size;
use crate::word::{at_most, finite, less, magnitude, nan, value, zero, Real, ONE, ZERO};

verus! {

/// The number that a finite word encodes.
pub open spec fn number(x: Real) -> real {
    value(x) as real / pow2(1074) as real
}

/// The largest relative error of a rounded result, 2^-53.
pub open spec fn roundoff() -> real {
    1 as real / 0x20_0000_0000_0000int as real
}

/// The largest error of a rounded result that is tiny, 2^-1075.
pub open spec fn least_error() -> real {
    1 as real / (2 * pow2(1074)) as real
}

/// `x` has all digits: it is not zero and not so small that it has lost some.
pub open spec fn normal(x: Real) -> bool {
    finite(x) && magnitude(x) >= 0x10_0000_0000_0000
}

/// The word `r` is the exact result, but for a relative rounding error.
pub open spec fn nearly(r: Real, exact: real) -> bool {
    size(number(r) - exact) <= roundoff() * size(number(r))
}

/// A sum or a difference is finite only of finite numbers, and has then a relative
/// rounding error.
pub open spec fn rounds_sums(f: Arith) -> bool {
    &&& forall|x: Real, y: Real|
        finite(#[trigger] f(Op::Add(x, y))) ==> finite(x) && finite(y) && nearly(
            f(Op::Add(x, y)),
            number(x) + number(y),
        )
    &&& forall|x: Real, y: Real|
        finite(#[trigger] f(Op::Sub(x, y))) ==> finite(x) && finite(y) && nearly(
            f(Op::Sub(x, y)),
            number(x) - number(y),
        )
}

/// The product neither overflows nor underflows.
pub open spec fn whole_product(f: Arith, x: Real, y: Real) -> bool {
    normal(f(Op::Mul(x, y))) || finite(f(Op::Mul(x, y))) && (zero(x) || zero(y))
}

/// The quotient neither overflows nor underflows.
pub open spec fn whole_quotient(f: Arith, x: Real, y: Real) -> bool {
    normal(f(Op::Div(x, y))) || finite(f(Op::Div(x, y))) && zero(x)
}

/// A product is finite only of finite numbers. It has a relative rounding error where it
/// does not underflow.
pub open spec fn rounds_products(f: Arith) -> bool {
    forall|x: Real, y: Real|
        finite(#[trigger] f(Op::Mul(x, y))) ==> {
            &&& finite(x) && finite(y)
            &&& whole_product(f, x, y) ==> nearly(f(Op::Mul(x, y)), number(x) * number(y))
        }
}

/// A quotient by a finite number is finite only of a finite number and one that is not
/// zero. It has a relative rounding error, and where it underflows a tiny one.
pub open spec fn rounds_quotients(f: Arith) -> bool {
    forall|x: Real, y: Real|
        finite(y) && finite(#[trigger] f(Op::Div(x, y))) ==> {
            let r = number(f(Op::Div(x, y)));
            &&& finite(x) && !zero(y)
            &&& size(r * number(y) - number(x)) <= (roundoff() * size(r) + least_error()) * size(
                number(y),
            )
            &&& whole_quotient(f, x, y) ==> size(r * number(y) - number(x)) <= roundoff() * size(r)
                * size(number(y))
        }
}

/// Squares and roots are finite only of finite numbers. A root has a relative rounding
/// error, and so has a square that does not underflow.
pub open spec fn rounds_squares_and_roots(f: Arith) -> bool {
    &&& forall|x: Real|
        finite(#[trigger] f(Op::Square(x))) ==> finite(x) && (normal(f(Op::Square(x))) || zero(x)
            ==> nearly(f(Op::Square(x)), number(x) * number(x)))
    &&& forall|x: Real|
        finite(#[trigger] f(Op::Sqrt(x))) ==> {
            let r = number(f(Op::Sqrt(x)));
            &&& finite(x)
            &&& r >= 0 as real
            &&& r * r * (1 as real - roundoff()) * (1 as real - roundoff()) <= number(x)
            &&& number(x) <= r * r * (1 as real + roundoff()) * (1 as real + roundoff())
        }
}

/// Counts up to 2^53 are exact.
pub open spec fn counts_exactly(f: Arith) -> bool {
    forall|n: usize|
        n <= 0x20_0000_0000_0000 ==> finite(#[trigger] f(Op::Count(n))) && number(f(Op::Count(n)))
            == n as real
}

/// No square is negative, a sum with a positive number is positive where the other term is
/// not negative, and a quotient by a positive number is not negative where the other is not.
pub open spec fn keeps_signs(f: Arith) -> bool {
    &&& forall|x: Real| !less(#[trigger] f(Op::Mul(x, x)), ZERO)
    &&& forall|x: Real, y: Real|
        !less(x, ZERO) && less(ZERO, y) ==> nan(#[trigger] f(Op::Add(x, y))) || less(
            ZERO,
            f(Op::Add(x, y)),
        )
    &&& forall|x: Real, y: Real|
        !less(x, ZERO) && (nan(y) || less(ZERO, y)) ==> !less(#[trigger] f(Op::Div(x, y)), ZERO)
}

/// Rounded products with a fraction, and rounded sums, do not fall when a term rises.
pub open spec fn rounds_monotonically(f: Arith) -> bool {
    &&& forall|u: Real, v: Real, s: Real|
        at_most(ZERO, u) && at_most(u, v) && at_most(v, ONE) && finite(s) && at_most(ZERO, s) ==> {
            &&& at_most(#[trigger] f(Op::Mul(u, s)), #[trigger] f(Op::Mul(v, s)))
            &&& finite(f(Op::Mul(u, s)))
            &&& finite(f(Op::Mul(v, s)))
        }
    &&& forall|l: Real, x: Real, y: Real|
        !nan(l) && finite(x) && finite(y) && at_most(x, y) ==> at_most(
            #[trigger] f(Op::Add(l, x)),
            #[trigger] f(Op::Add(l, y)),
        )
}

/// A number less a smaller one is not negative.
pub open spec fn subtracts_in_order(f: Arith) -> bool {
    forall|x: Real, y: Real| less(x, y) ==> at_most(ZERO, #[trigger] f(Op::Sub(y, x)))
}

/// Sums, differences and products with what is not a number are not numbers.
pub open spec fn propagates_nan(f: Arith) -> bool {
    &&& forall|x: Real, y: Real| nan(x) || nan(y) ==> nan(#[trigger] f(Op::Add(x, y)))
    &&& forall|x: Real, y: Real| nan(x) || nan(y) ==> nan(#[trigger] f(Op::Sub(x, y)))
    &&& forall|x: Real, y: Real| nan(x) || nan(y) ==> nan(#[trigger] f(Op::Mul(x, y)))
}

/// Words are ordered as the numbers that they encode.
pub proof fn lemma_number_order(x: Real, y: Real)
    requires
        finite(x),
        finite(y),
    ensures
        less(x, y) <==> number(x) < number(y),
        number(ZERO) == 0 as real,
        zero(x) <==> number(x) == 0 as real,
{
    law_order_is_numeric(x, y);
    law_order_is_numeric(x, ZERO);
    law_order_is_numeric(ZERO, x);
    lemma_pow2_pos(1074);
    let e = pow2(1074) as real;
    let (a, b) = (value(x) as real, value(y) as real);
    assert(value(ZERO) == 0);
    assert(a / e < b / e <==> a < b) by (nonlinear_arith)
        requires
            e > 0 as real,
    ;
    assert(a / e == 0 as real <==> a == 0 as real) by (nonlinear_arith)
        requires
            e > 0 as real,
    ;
    assert((0 as real) / e == 0 as real) by (nonlinear_arith)
        requires
            e > 0 as real,
    ;
}

/// The rounding errors are small and positive.
pub proof fn lemma_roundoff()
    ensures
        (0 as real) < roundoff(),
        roundoff() * 0x20_0000_0000_0000int as real == 1 as real,
        roundoff() * 1000000 as real <= 1 as real,
        (0 as real) < least_error(),
{
    lemma_pow2_pos(1074);
    let e = (2 * pow2(1074)) as real;
    assert((0 as real) < 1 as real / e) by (nonlinear_arith)
        requires
            e > 0 as real,
    ;
}

} // verus!
