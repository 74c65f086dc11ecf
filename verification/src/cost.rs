//! The cost of a parameter vector against the observations, in physical parameters and
//! in parameters scaled to the unit cube.
//!
//! In the unit cube every parameter has the same scale, which keeps the Hessian
//! approximation of a quasi-Newton method well conditioned.

use vstd::prelude::*;

use crate::arith::{apply, implements, total, Arith, Op};
use crate::model::{model, sbpl_model};
use crate::word::{
    clamp, clamped, finite, greater, is_finite, less, lesser, lt, max, min, Real, ONE, ZERO,
};

verus! {

/// The number of parameters: `[alpha1, alpha2, beta, logd, loga, tb, t0]`.
pub const N_PARAMS: usize = 7;

/// The cost of parameters for which the model has no finite value, or of no
/// observation at all.
pub const PENALTY: Real = 0x4202_a05f_2000_0000;

/// What is added to each squared uncertainty.
pub const VARIANCE_FLOOR: Real = 0x39b4_484b_feeb_c2a0;

/// The half width of the finite differences, in the unit cube.
pub const GRADIENT_STEP: Real = 0x3ee4_f8b5_88e3_68f1;

/// One flux measurement.
#[derive(Clone, Copy, Debug)]
pub struct SbplObs {
    /// Time in days.
    pub time: Real,
    /// Frequency in units of 10^15 Hz.
    pub nu_scaled: Real,
    /// Flux.
    pub flux: Real,
    /// Uncertainty of the flux.
    pub flux_err: Real,
}

/// The observations that parameters are measured against.
#[derive(Debug)]
pub struct SbplCost {
    /// The observations, with fluxes normalised by the largest.
    pub observations: Vec<SbplObs>,
}

/// A cost whose parameters are mapped to the unit cube.
#[derive(Debug)]
pub struct ScaledSbplCost<'a> {
    /// The cost in physical parameters.
    pub inner: &'a SbplCost,
    /// The physical parameters at the origin of the cube.
    pub lower: Vec<Real>,
    /// The physical length of each edge of the cube.
    pub scale: Vec<Real>,
}

/// The model's flux where and when `o` was taken.
pub open spec fn predicted(f: Arith, o: SbplObs, p: Seq<Real>) -> Real {
    model(f, o.time, o.nu_scaled, p[0], p[1], p[2], p[3], p[4], p[5], p[6])
}

/// The squared residual of one observation over its variance.
pub open spec fn misfit(f: Arith, o: SbplObs, p: Seq<Real>) -> Real {
    let residual = f(Op::Sub(o.flux, predicted(f, o, p)));
    let variance = f(Op::Add(f(Op::Mul(o.flux_err, o.flux_err)), VARIANCE_FLOOR));
    f(Op::Div(f(Op::Mul(residual, residual)), variance))
}

/// The misfits added up, first to last.
pub open spec fn chi2(f: Arith, observations: Seq<SbplObs>, p: Seq<Real>) -> Real
    decreases observations.len(),
{
    if observations.len() == 0 {
        ZERO
    } else {
        f(Op::Add(chi2(f, observations.drop_last(), p), misfit(f, observations.last(), p)))
    }
}

/// The model is finite at every observation.
pub open spec fn predictable(f: Arith, observations: Seq<SbplObs>, p: Seq<Real>) -> bool {
    forall|i: int|
        0 <= i < observations.len() ==> finite(#[trigger] predicted(f, observations[i], p))
}

/// Chi squared per observation, or the penalty.
pub open spec fn cost(f: Arith, observations: Seq<SbplObs>, p: Seq<Real>) -> Real {
    if observations.len() > 0 && predictable(f, observations, p) {
        f(Op::Div(chi2(f, observations, p), f(Op::Count(observations.len() as usize))))
    } else {
        PENALTY
    }
}

/// The physical parameters at a point of the unit cube, to which `xs` is clamped.
pub open spec fn unscaled(f: Arith, lower: Seq<Real>, scale: Seq<Real>, xs: Seq<Real>) -> Seq<
    Real,
> {
    Seq::new(
        xs.len(),
        |i: int| f(Op::Add(lower[i], f(Op::Mul(clamped(xs[i], ZERO, ONE), scale[i])))),
    )
}

/// The cost at a point of the unit cube.
pub open spec fn scaled_cost(f: Arith, problem: ScaledSbplCost, xs: Seq<Real>) -> Real {
    cost(f, problem.inner.observations@, unscaled(f, problem.lower@, problem.scale@, xs))
}

/// `xs` with coordinate `i` a step higher, but not above one.
pub open spec fn raised(f: Arith, xs: Seq<Real>, i: int) -> Seq<Real> {
    xs.update(i, lesser(f(Op::Add(xs[i], GRADIENT_STEP)), ONE))
}

/// `xs` with coordinate `i` a step lower, but not below zero.
pub open spec fn lowered(f: Arith, xs: Seq<Real>, i: int) -> Seq<Real> {
    xs.update(i, greater(f(Op::Sub(xs[i], GRADIENT_STEP)), ZERO))
}

/// The width of the step along coordinate `i`.
pub open spec fn step_width(f: Arith, xs: Seq<Real>, i: int) -> Real {
    f(Op::Sub(raised(f, xs, i)[i], lowered(f, xs, i)[i]))
}

/// No step from `xs` has a positive width.
pub open spec fn stepless(f: Arith, xs: Seq<Real>) -> bool {
    forall|i: int| 0 <= i < xs.len() ==> !less(ZERO, #[trigger] step_width(f, xs, i))
}

/// The central difference along coordinate `i`, or zero where the step has no positive
/// width.
pub open spec fn slope(f: Arith, problem: ScaledSbplCost, xs: Seq<Real>, i: int) -> Real {
    let up = raised(f, xs, i);
    let down = lowered(f, xs, i);
    let step = step_width(f, xs, i);
    if less(ZERO, step) {
        f(
            Op::Div(
                f(Op::Sub(scaled_cost(f, problem, up), scaled_cost(f, problem, down))),
                step,
            ),
        )
    } else {
        ZERO
    }
}

impl SbplCost {
    /// Chi squared per observation for `p = [alpha1, alpha2, beta, logd, loga, tb, t0]`.
    pub fn eval<A: Fn(Op) -> Real>(&self, p: &Vec<Real>, alu: &A) -> (r: Real)
        requires
            total(*alu),
            p.len() >= N_PARAMS,
        ensures
            self.observations.len() == 0 ==> r == PENALTY,
            forall|f: Arith| #[trigger]
                implements(*alu, f) ==> r == cost(f, self.observations@, p@),
    {
        let ghost obs = self.observations@;
        let n: usize = self.observations.len();
        let mut sum: Real = ZERO;
        let mut i: usize = 0;
        while i < n
            invariant
                total(*alu),
                p.len() >= N_PARAMS,
                obs == self.observations@,
                n == obs.len(),
                i <= n,
                forall|f: Arith| #[trigger]
                    implements(*alu, f) ==> sum == chi2(f, obs.take(i as int), p@) && predictable(
                        f,
                        obs.take(i as int),
                        p@,
                    ),
            decreases n - i,
        {
            let o: SbplObs = self.observations[i];
            let flux: Real = sbpl_model(
                o.time,
                o.nu_scaled,
                p[0],
                p[1],
                p[2],
                p[3],
                p[4],
                p[5],
                p[6],
                alu,
            );
            if !is_finite(flux) {
                assert forall|f: Arith| #[trigger] implements(*alu, f) implies PENALTY == cost(
                    f,
                    obs,
                    p@,
                ) by {
                    assert(!finite(predicted(f, obs[i as int], p@)));
                }
                return PENALTY;
            }
            let residual: Real = apply(alu, Op::Sub(o.flux, flux));
            let squared_err: Real = apply(alu, Op::Mul(o.flux_err, o.flux_err));
            let variance: Real = apply(alu, Op::Add(squared_err, VARIANCE_FLOOR));
            let squared: Real = apply(alu, Op::Mul(residual, residual));
            let term: Real = apply(alu, Op::Div(squared, variance));
            sum = apply(alu, Op::Add(sum, term));
            assert forall|f: Arith| #[trigger] implements(*alu, f) implies sum == chi2(
                f,
                obs.take(i + 1),
                p@,
            ) && predictable(f, obs.take(i + 1), p@) by {
                assert(obs.take(i + 1).drop_last() == obs.take(i as int));
                assert(obs.take(i + 1).last() == o);
                assert forall|j: int| 0 <= j < obs.take(i + 1).len() implies finite(
                    #[trigger] predicted(f, obs.take(i + 1)[j], p@),
                ) by {
                    if j < i {
                        assert(finite(predicted(f, obs.take(i as int)[j], p@)));
                    }
                }
            }
            i = i + 1;
        }
        assert(obs.take(n as int) == obs);
        if n == 0 {
            return PENALTY;
        }
        let count: Real = apply(alu, Op::Count(n));
        apply(alu, Op::Div(sum, count))
    }
}

impl<'a> ScaledSbplCost<'a> {
    /// Every coordinate of `xs` has an edge.
    pub open spec fn covers(&self, xs: Seq<Real>) -> bool {
        xs.len() <= self.lower.len() && xs.len() <= self.scale.len()
    }

    /// Maps a point of the unit cube back to physical parameters, clamping it first.
    pub fn unscale<A: Fn(Op) -> Real>(&self, xs: &Vec<Real>, alu: &A) -> (r: Vec<Real>)
        requires
            total(*alu),
            self.covers(xs@),
        ensures
            r.len() == xs.len(),
            forall|f: Arith| #[trigger]
                implements(*alu, f) ==> r@ == unscaled(f, self.lower@, self.scale@, xs@),
    {
        let n: usize = xs.len();
        let mut r: Vec<Real> = Vec::new();
        let mut i: usize = 0;
        while i < n
            invariant
                total(*alu),
                self.covers(xs@),
                n == xs.len(),
                i <= n,
                r.len() == i,
                forall|f: Arith| #[trigger]
                    implements(*alu, f) ==> r@ == unscaled(
                        f,
                        self.lower@,
                        self.scale@,
                        xs@,
                    ).take(i as int),
            decreases n - i,
        {
            let offset: Real = apply(alu, Op::Mul(clamp(xs[i], ZERO, ONE), self.scale[i]));
            let x: Real = apply(alu, Op::Add(self.lower[i], offset));
            r.push(x);
            assert forall|f: Arith| #[trigger] implements(*alu, f) implies r@ == unscaled(
                f,
                self.lower@,
                self.scale@,
                xs@,
            ).take(i + 1) by {
                let all = unscaled(f, self.lower@, self.scale@, xs@);
                assert(all.take(i + 1) == all.take(i as int).push(all[i as int]));
            }
            i = i + 1;
        }
        assert forall|f: Arith| #[trigger] implements(*alu, f) implies r@ == unscaled(
            f,
            self.lower@,
            self.scale@,
            xs@,
        ) by {
            let all = unscaled(f, self.lower@, self.scale@, xs@);
            assert(all.take(n as int) == all);
        }
        r
    }

    /// The cost at a point of the unit cube.
    pub fn cost<A: Fn(Op) -> Real>(&self, xs: &Vec<Real>, alu: &A) -> (r: Real)
        requires
            total(*alu),
            self.covers(xs@),
            xs.len() >= N_PARAMS,
        ensures
            self.inner.observations.len() == 0 ==> r == PENALTY,
            forall|f: Arith| #[trigger] implements(*alu, f) ==> r == scaled_cost(f, *self, xs@),
    {
        let p: Vec<Real> = self.unscale(xs, alu);
        self.inner.eval(&p, alu)
    }

    /// The gradient of the cost by central differences. Each coordinate lies in [0, 1],
    /// so one step width suits all of them.
    pub fn gradient<A: Fn(Op) -> Real>(&self, xs: &Vec<Real>, alu: &A) -> (r: Vec<Real>)
        requires
            total(*alu),
            self.covers(xs@),
            xs.len() == 0 || xs.len() >= N_PARAMS || (exists|f: Arith| #[trigger]
                implements(*alu, f)) && forall|f: Arith| #[trigger]
                implements(*alu, f) ==> stepless(f, xs@),
        ensures
            r.len() == xs.len(),
            forall|f: Arith| #[trigger]
                implements(*alu, f) ==> r@ == Seq::new(
                    xs@.len(),
                    |i: int| slope(f, *self, xs@, i),
                ),
    {
        let n: usize = xs.len();
        let mut grad: Vec<Real> = Vec::new();
        let mut i: usize = 0;
        while i < n
            invariant
                total(*alu),
                self.covers(xs@),
                n == xs.len(),
                n == 0 || n >= N_PARAMS || (exists|f: Arith| #[trigger]
                    implements(*alu, f)) && forall|f: Arith| #[trigger]
                    implements(*alu, f) ==> stepless(f, xs@),
                i <= n,
                grad.len() == i,
                forall|f: Arith| #[trigger]
                    implements(*alu, f) ==> forall|j: int|
                        0 <= j < i ==> grad@[j] == #[trigger] slope(f, *self, xs@, j),
            decreases n - i,
        {
            let mut xp: Vec<Real> = xs.clone();
            let mut xm: Vec<Real> = xs.clone();
            assert(xp@ == xs@ && xm@ == xs@);
            let above: Real = apply(alu, Op::Add(xs[i], GRADIENT_STEP));
            let below: Real = apply(alu, Op::Sub(xs[i], GRADIENT_STEP));
            xp[i] = min(above, ONE);
            xm[i] = max(below, ZERO);
            let step: Real = apply(alu, Op::Sub(xp[i], xm[i]));
            let mut slope_i: Real = ZERO;
            if lt(ZERO, step) {
                proof {
                    if n < N_PARAMS {
                        let f = choose|f: Arith| #[trigger] implements(*alu, f);
                        assert(raised(f, xs@, i as int) == xp@);
                        assert(lowered(f, xs@, i as int) == xm@);
                        assert(step == step_width(f, xs@, i as int));
                    }
                }
                let cost_up: Real = self.cost(&xp, alu);
                let cost_down: Real = self.cost(&xm, alu);
                let difference: Real = apply(alu, Op::Sub(cost_up, cost_down));
                slope_i = apply(alu, Op::Div(difference, step));
            }
            grad.push(slope_i);
            assert forall|f: Arith| #[trigger] implements(*alu, f) implies slope_i == slope(
                f,
                *self,
                xs@,
                i as int,
            ) by {
                assert(xp@ == raised(f, xs@, i as int));
                assert(xm@ == lowered(f, xs@, i as int));
            }
            i = i + 1;
        }
        grad
    }
}

} // verus!
