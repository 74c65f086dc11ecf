//! Local refinement of a parameter vector by a quasi-Newton solver in the unit cube.

use vstd::prelude::*;

use crate::arith::{apply, implements, total, Arith, Op};
use crate::cost::{cost, unscaled, SbplCost, SbplObs, ScaledSbplCost, N_PARAMS};
use crate::swarm::bounded;
use crate::word::{clamp, clamped, finite, is_finite, less, lt, Real, ONE, ZERO};

verus! {

/// How many past steps the solver remembers.
pub const LBFGS_MEMORY: usize = 10;

/// After how many iterations the solver stops.
pub const LBFGS_MAX_ITERS: u64 = 200;

/// The gradient norm, 10^-7, at which the solver stops.
pub const LBFGS_GRADIENT_TOLERANCE: Real = 0x3e7a_d7f2_9abc_af48;

/// A mathematical function that gives the point at which a solver ends, from the
/// observations, the lower bounds, the edges of the cube and the start. It ends nowhere
/// where it fails.
pub type Solver = spec_fn(Seq<SbplObs>, Seq<Real>, Seq<Real>, Seq<Real>) -> Option<Seq<Real>>;

/// The length of each edge of the box between the bounds.
pub open spec fn spans(f: Arith, lower: Seq<Real>, upper: Seq<Real>) -> Seq<Real> {
    Seq::new(bounded(lower, upper), |i: int| f(Op::Sub(upper[i], lower[i])))
}

/// The end of a solver as a mathematical sequence.
pub open spec fn seen(outcome: Option<Vec<Real>>) -> Option<Seq<Real>> {
    match outcome {
        Some(xs) => Some(xs@),
        None => None,
    }
}

/// Physical parameters as a point of the unit cube.
pub open spec fn scaled(f: Arith, lower: Seq<Real>, scale: Seq<Real>, p: Seq<Real>) -> Seq<Real> {
    Seq::new(
        p.len(),
        |i: int| clamped(f(Op::Div(f(Op::Sub(p[i], lower[i])), scale[i])), ZERO, ONE),
    )
}

/// What refinement returns when the solver ended at `outcome`: the physical parameters
/// there and their cost if that is finite and below the cost at the start, and the
/// start otherwise or where the solver has no point to offer.
pub open spec fn refined(
    f: Arith,
    observations: Seq<SbplObs>,
    lower: Seq<Real>,
    scale: Seq<Real>,
    start: Seq<Real>,
    start_cost: Real,
    outcome: Option<Seq<Real>>,
) -> (Seq<Real>, Real) {
    match outcome {
        Some(xs) => {
            let x = unscaled(f, lower, scale, xs);
            let c = cost(f, observations, x);
            if xs.len() > 0 && less(c, start_cost) && finite(c) {
                (x, c)
            } else {
                (start, start_cost)
            }
        },
        None => (start, start_cost),
    }
}

/// The solver takes every start that the problem covers, and what it ends at has no
/// coordinates or those of the start.
pub open spec fn solves<P: Fn(&ScaledSbplCost, &Vec<Real>) -> Option<Vec<Real>>>(
    polish: P,
) -> bool {
    &&& forall|problem: &ScaledSbplCost, xs: &Vec<Real>|
        problem.covers(xs@) && xs@.len() >= N_PARAMS ==> #[trigger] call_requires(
            polish,
            (problem, xs),
        )
    &&& forall|problem: &ScaledSbplCost, xs: &Vec<Real>, outcome: Option<Vec<Real>>| #[trigger]
        call_ensures(polish, (problem, xs), outcome) && outcome is Some ==> outcome->0@.len() == 0
            || outcome->0@.len() == xs@.len()
}

/// The solver was started at `xs` on `problem`, which is the cost of `observations` in
/// the cube between the bounds, `xs` being `start` there.
pub open spec fn posed(
    f: Arith,
    problem: ScaledSbplCost,
    xs: Vec<Real>,
    observations: Seq<SbplObs>,
    lower: Seq<Real>,
    upper: Seq<Real>,
    start: Seq<Real>,
) -> bool {
    &&& problem.inner.observations@ == observations
    &&& problem.lower@ == lower
    &&& problem.scale@ == spans(f, lower, upper)
    &&& xs@ == scaled(f, lower, problem.scale@, start)
}

/// `end` is what refinement makes of `start` on some outcome of the solver for the problem
/// posed between the bounds.
pub open spec fn polished<P: Fn(&ScaledSbplCost, &Vec<Real>) -> Option<Vec<Real>>>(
    f: Arith,
    polish: P,
    observations: Seq<SbplObs>,
    lower: Seq<Real>,
    upper: Seq<Real>,
    start: (Seq<Real>, Real),
    end: (Seq<Real>, Real),
) -> bool {
    exists|cube: ScaledSbplCost, xs: Vec<Real>, outcome: Option<Vec<Real>>| #[trigger]
        call_ensures(polish, (&cube, &xs), outcome) && posed(
            f,
            cube,
            xs,
            observations,
            lower,
            upper,
            start.0,
        ) && end == refined(
            f,
            observations,
            lower,
            spans(f, lower, upper),
            start.0,
            start.1,
            seen(outcome),
        )
}

/// Whatever the solver ends at is what `h` gives.
pub open spec fn follows<P: Fn(&ScaledSbplCost, &Vec<Real>) -> Option<Vec<Real>>>(
    polish: P,
    h: Solver,
) -> bool {
    forall|cube: ScaledSbplCost, xs: Vec<Real>, outcome: Option<Vec<Real>>| #[trigger]
        call_ensures(polish, (&cube, &xs), outcome) ==> seen(outcome) == h(
            cube.inner.observations@,
            cube.lower@,
            cube.scale@,
            xs@,
        )
}

/// What refinement makes of `start` with a solver that ends where `h` says.
pub open spec fn refinement(
    f: Arith,
    h: Solver,
    observations: Seq<SbplObs>,
    lower: Seq<Real>,
    upper: Seq<Real>,
    start: (Seq<Real>, Real),
) -> (Seq<Real>, Real) {
    let scale = spans(f, lower, upper);
    let end = h(observations, lower, scale, scaled(f, lower, scale, start.0));
    refined(f, observations, lower, scale, start.0, start.1, end)
}

/// The cost in the unit cube between the bounds.
pub fn scale_problem<'a, A: Fn(Op) -> Real>(
    problem: &'a SbplCost,
    lower: &Vec<Real>,
    upper: &Vec<Real>,
    alu: &A,
) -> (r: ScaledSbplCost<'a>)
    requires
        total(*alu),
    ensures
        *r.inner == *problem,
        r.lower@ == lower@,
        r.scale@.len() == bounded(lower@, upper@),
        forall|f: Arith| #[trigger] implements(*alu, f) ==> r.scale@ == spans(f, lower@, upper@),
{
    let n: usize = if lower.len() <= upper.len() {
        lower.len()
    } else {
        upper.len()
    };
    let mut scale: Vec<Real> = Vec::new();
    let mut i: usize = 0;
    while i < n
        invariant
            total(*alu),
            n <= lower.len(),
            n <= upper.len(),
            i <= n,
            scale.len() == i,
            forall|f: Arith| #[trigger]
                implements(*alu, f) ==> forall|j: int|
                    0 <= j < i ==> #[trigger] scale@[j] == f(Op::Sub(upper@[j], lower@[j])),
        decreases n - i,
    {
        let edge: Real = apply(alu, Op::Sub(upper[i], lower[i]));
        scale.push(edge);
        i = i + 1;
    }
    let corner: Vec<Real> = lower.clone();
    assert(corner@ == lower@);
    ScaledSbplCost { inner: problem, lower: corner, scale }
}

/// A physical parameter vector as a point of the unit cube.
pub fn scale_point<'a, A: Fn(Op) -> Real>(
    problem: &ScaledSbplCost<'a>,
    p: &Vec<Real>,
    alu: &A,
) -> (r: Vec<Real>)
    requires
        total(*alu),
        problem.covers(p@),
    ensures
        r.len() == p.len(),
        forall|f: Arith| #[trigger]
            implements(*alu, f) ==> r@ == scaled(f, problem.lower@, problem.scale@, p@),
{
    let n: usize = p.len();
    let mut r: Vec<Real> = Vec::new();
    let mut i: usize = 0;
    while i < n
        invariant
            total(*alu),
            n == p.len(),
            problem.covers(p@),
            i <= n,
            r.len() == i,
            forall|f: Arith| #[trigger]
                implements(*alu, f) ==> forall|j: int|
                    0 <= j < i ==> #[trigger] r@[j] == scaled(
                        f,
                        problem.lower@,
                        problem.scale@,
                        p@,
                    )[j],
        decreases n - i,
    {
        let offset: Real = apply(alu, Op::Sub(p[i], problem.lower[i]));
        let x: Real = apply(alu, Op::Div(offset, problem.scale[i]));
        r.push(clamp(x, ZERO, ONE));
        i = i + 1;
    }
    r
}

/// Takes the solver's outcome where it is an improvement, else the start.
pub fn accept_refined<'a, A: Fn(Op) -> Real>(
    problem: &ScaledSbplCost<'a>,
    start: Vec<Real>,
    start_cost: Real,
    outcome: &Option<Vec<Real>>,
    alu: &A,
) -> (r: (Vec<Real>, Real))
    requires
        total(*alu),
        outcome matches Some(xs) ==> xs.len() == 0 || (xs.len() >= N_PARAMS && problem.covers(
            xs@,
        )),
    ensures
        r.0@ == start@ && r.1 == start_cost || less(r.1, start_cost) && finite(r.1) && outcome
            is Some && r.0@.len() == outcome->0@.len() > 0,
        forall|f: Arith| #[trigger]
            implements(*alu, f) ==> (r.0@, r.1) == refined(
                f,
                problem.inner.observations@,
                problem.lower@,
                problem.scale@,
                start@,
                start_cost,
                seen(*outcome),
            ),
{
    match outcome {
        Some(xs) => {
            if xs.len() == 0 {
                return (start, start_cost);
            }
            let x_best: Vec<Real> = problem.unscale(xs, alu);
            let final_cost: Real = problem.inner.eval(&x_best, alu);
            if lt(final_cost, start_cost) && is_finite(final_cost) {
                (x_best, final_cost)
            } else {
                (start, start_cost)
            }
        },
        None => (start, start_cost),
    }
}

/// Refines `start` with the solver `polish` in the unit cube between the bounds. Falls
/// back to the start where the solver fails or finds nothing better.
pub fn lbfgs_refine<
    P: Fn(&ScaledSbplCost, &Vec<Real>) -> Option<Vec<Real>>,
    A: Fn(Op) -> Real,
>(
    problem: &SbplCost,
    start: Vec<Real>,
    start_cost: Real,
    lower: &Vec<Real>,
    upper: &Vec<Real>,
    polish: &P,
    alu: &A,
) -> (r: (Vec<Real>, Real))
    requires
        total(*alu),
        solves(*polish),
        N_PARAMS <= start.len(),
        start.len() <= lower.len(),
        start.len() <= upper.len(),
    ensures
        r.0.len() == start.len(),
        r.0@ == start@ && r.1 == start_cost || less(r.1, start_cost) && finite(r.1),
        forall|f: Arith| #[trigger]
            implements(*alu, f) ==> polished(
                f,
                *polish,
                problem.observations@,
                lower@,
                upper@,
                (start@, start_cost),
                (r.0@, r.1),
            ),
        forall|f: Arith, h: Solver|
            #![trigger implements(*alu, f), follows(*polish, h)]
            implements(*alu, f) && follows(*polish, h) ==> (r.0@, r.1) == refinement(
                f,
                h,
                problem.observations@,
                lower@,
                upper@,
                (start@, start_cost),
            ),
{
    let cube: ScaledSbplCost = scale_problem(problem, lower, upper, alu);
    let xs0: Vec<Real> = scale_point(&cube, &start, alu);
    let outcome: Option<Vec<Real>> = polish(&cube, &xs0);
    accept_refined(&cube, start, start_cost, &outcome, alu)
}

} // verus!
