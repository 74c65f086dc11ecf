//! The arithmetic unit: rounded operations on words, supplied by the caller.
//!
//! Everything in this crate that rounds (sums, products, powers, logarithms) is asked
//! of a function from operations to words. Contracts say what is computed for every
//! mathematical function that the unit implements.

use vstd::prelude::*;

use crate::word::Real;

verus! {

/// One rounded operation.
#[derive(Clone, Copy, Debug)]
pub enum Op {
    /// `x + y`
    Add(Real, Real),
    /// `x - y`
    Sub(Real, Real),
    /// `x * y`
    Mul(Real, Real),
    /// `x / y`
    Div(Real, Real),
    /// `x` to the power `y`
    Pow(Real, Real),
    /// `x` to the integer power two
    Square(Real),
    /// The square root of `x`
    Sqrt(Real),
    /// The decimal logarithm of `x`
    Log10(Real),
    /// The number nearest to a count
    Count(usize),
}

/// A mathematical function that gives each operation its result.
pub type Arith = spec_fn(Op) -> Real;

/// The unit answers every operation.
pub open spec fn total<A: Fn(Op) -> Real>(alu: A) -> bool {
    forall|op: Op| #[trigger] call_requires(alu, (op,))
}

/// Whatever the unit answers is what `f` gives.
pub open spec fn implements<A: Fn(Op) -> Real>(alu: A, f: Arith) -> bool {
    forall|op: Op, r: Real| #[trigger] call_ensures(alu, (op,), r) ==> r == f(op)
}

/// Asks the unit for one operation.
pub fn apply<A: Fn(Op) -> Real>(alu: &A, op: Op) -> (r: Real)
    requires
        total(*alu),
    ensures
        call_ensures(*alu, (op,), r),
        forall|f: Arith| #[trigger] implements(*alu, f) ==> r == f(op),
{
    alu(op)
}

} // verus!
