//! What refinement does: how parameters map to the unit cube and back, what the gradient is
//! at every point of it, what the solver is handed, and when its end is taken.

use vstd::prelude::*;

use crate::arith::{Arith, Op};
use crate::cost::{
    cost, scaled_cost, slope, unscaled, SbplObs, ScaledSbplCost, GRADIENT_STEP,
};
use crate::refine::{polished, posed, refined, refinement, scaled, seen, spans, Solver};
use crate::word::{at_most, finite, less, nan, Real, ONE, ZERO};

verus! {

/// A coordinate in the unit interval leads to the lower bound plus that part of the edge. One
/// below zero counts as zero, one above one as one, and what is no number as it is.
pub proof fn law_unscaled_by_cases(
    f: Arith,
    lower: Seq<Real>,
    scale: Seq<Real>,
    xs: Seq<Real>,
    i: int,
)
    requires
        0 <= i < xs.len(),
    ensures
        unscaled(f, lower, scale, xs).len() == xs.len(),
        ({
            let r = unscaled(f, lower, scale, xs)[i];
            let at = |x: Real| f(Op::Add(lower[i], f(Op::Mul(x, scale[i]))));
            &&& at_most(ZERO, xs[i]) && at_most(xs[i], ONE) ==> r == at(xs[i])
            &&& less(xs[i], ZERO) ==> r == at(ZERO)
            &&& less(ONE, xs[i]) ==> r == at(ONE)
            &&& nan(xs[i]) ==> r == at(xs[i])
        }),
{
}

/// A parameter leads to its distance from the lower bound over the edge where that is in the
/// unit interval, to zero where it is below and to one where it is above.
pub proof fn law_scaled_by_cases(
    f: Arith,
    lower: Seq<Real>,
    scale: Seq<Real>,
    p: Seq<Real>,
    i: int,
)
    requires
        0 <= i < p.len(),
    ensures
        scaled(f, lower, scale, p).len() == p.len(),
        ({
            let x = f(Op::Div(f(Op::Sub(p[i], lower[i])), scale[i]));
            let r = scaled(f, lower, scale, p)[i];
            &&& at_most(ZERO, x) && at_most(x, ONE) ==> r == x
            &&& less(x, ZERO) ==> r == ZERO
            &&& less(ONE, x) ==> r == ONE
            &&& nan(x) ==> r == x
        }),
{
}

/// Where dividing by an edge and multiplying with it, and taking away a bound and adding it,
/// lead back, a parameter between the bounds comes back from the cube as it went in.
pub proof fn law_cube_and_back(f: Arith, lower: Seq<Real>, scale: Seq<Real>, p: Seq<Real>, i: int)
    requires
        0 <= i < p.len(),
        ({
            let away = f(Op::Sub(p[i], lower[i]));
            let x = f(Op::Div(away, scale[i]));
            &&& at_most(ZERO, x) && at_most(x, ONE)
            &&& f(Op::Mul(x, scale[i])) == away
            &&& f(Op::Add(lower[i], away)) == p[i]
        }),
    ensures
        unscaled(f, lower, scale, scaled(f, lower, scale, p))[i] == p[i],
{
}

/// The edges are the distances of the bounds.
pub proof fn law_spans(f: Arith, lower: Seq<Real>, upper: Seq<Real>, i: int)
    requires
        0 <= i < lower.len(),
        i < upper.len(),
    ensures
        i < spans(f, lower, upper).len(),
        spans(f, lower, upper).len() <= lower.len(),
        spans(f, lower, upper).len() <= upper.len(),
        spans(f, lower, upper)[i] == f(Op::Sub(upper[i], lower[i])),
{
}

/// The cost in the cube is the cost at the physical parameters.
pub proof fn law_scaled_cost(f: Arith, problem: ScaledSbplCost, xs: Seq<Real>, p: Seq<Real>)
    requires
        p.len() == xs.len(),
        forall|i: int|
            0 <= i < xs.len() ==> #[trigger] p[i] == unscaled(
                f,
                problem.lower@,
                problem.scale@,
                xs,
            )[i],
    ensures
        scaled_cost(f, problem, xs) == cost(f, problem.inner.observations@, p),
{
    assert(p =~= unscaled(f, problem.lower@, problem.scale@, xs));
}

/// The gradient along a coordinate, at any point: `up` is a step above it or one, whichever
/// is less, `down` a step below it or zero, whichever is more. Where `up` less `down` is
/// positive, the gradient is the difference of the costs there over it, with all other
/// coordinates held; elsewhere it is zero.
pub proof fn law_slope_everywhere(
    f: Arith,
    problem: ScaledSbplCost,
    xs: Seq<Real>,
    i: int,
    up: Real,
    down: Real,
)
    requires
        0 <= i < xs.len(),
        ({
            let above = f(Op::Add(xs[i], GRADIENT_STEP));
            let below = f(Op::Sub(xs[i], GRADIENT_STEP));
            &&& at_most(above, ONE) ==> up == above
            &&& !at_most(above, ONE) ==> up == ONE
            &&& at_most(ZERO, below) ==> down == below
            &&& !at_most(ZERO, below) ==> down == ZERO
        }),
    ensures
        ({
            let width = f(Op::Sub(up, down));
            &&& less(ZERO, width) ==> slope(f, problem, xs, i) == f(
                Op::Div(
                    f(
                        Op::Sub(
                            scaled_cost(f, problem, xs.update(i, up)),
                            scaled_cost(f, problem, xs.update(i, down)),
                        ),
                    ),
                    width,
                ),
            )
            &&& !less(ZERO, width) ==> slope(f, problem, xs, i) == ZERO
        }),
{
}

/// The end of the solver is taken whenever it has coordinates and its physical parameters
/// have a finite cost below that of the start; the start is returned otherwise. So the
/// returned cost is never above a finite cost at the end, nor above that of the start.
pub proof fn law_refined_takes_improvement(
    f: Arith,
    observations: Seq<SbplObs>,
    lower: Seq<Real>,
    scale: Seq<Real>,
    start: Seq<Real>,
    start_cost: Real,
    xs: Seq<Real>,
)
    ensures
        ({
            let end = unscaled(f, lower, scale, xs);
            let c = cost(f, observations, end);
            let r = refined(f, observations, lower, scale, start, start_cost, Some(xs));
            let none = refined(f, observations, lower, scale, start, start_cost, None);
            &&& xs.len() > 0 && finite(c) && less(c, start_cost) ==> r == (end, c)
            &&& xs.len() == 0 || !finite(c) || !less(c, start_cost) ==> r == (start, start_cost)
            &&& none == (start, start_cost)
            &&& xs.len() > 0 && finite(c) && !nan(start_cost) ==> at_most(r.1, c)
            &&& !nan(start_cost) ==> at_most(r.1, start_cost)
        }),
{
}

/// The solver is handed the observations, the lower bounds, the distances of the bounds as
/// edges, and the start in the cube. Its end is taken where it is an improvement.
pub proof fn law_refinement_poses(
    f: Arith,
    h: Solver,
    observations: Seq<SbplObs>,
    lower: Seq<Real>,
    upper: Seq<Real>,
    start: (Seq<Real>, Real),
)
    requires
        lower.len() == upper.len(),
    ensures
        ({
            let edges = Seq::new(lower.len(), |i: int| f(Op::Sub(upper[i], lower[i])));
            let xs = scaled(f, lower, edges, start.0);
            let r = refinement(f, h, observations, lower, upper, start);
            match h(observations, lower, edges, xs) {
                Some(ys) => {
                    let end = unscaled(f, lower, edges, ys);
                    let c = cost(f, observations, end);
                    if ys.len() > 0 && finite(c) && less(c, start.1) {
                        r == (end, c)
                    } else {
                        r == start
                    }
                },
                None => r == start,
            }
        }),
{
    let edges = Seq::new(lower.len(), |i: int| f(Op::Sub(upper[i], lower[i])));
    assert(spans(f, lower, upper) =~= edges);
}

/// Whatever the solver does, refinement has handed it such a problem and start, and has
/// returned its end or the start.
pub proof fn law_polished_poses<P: Fn(&ScaledSbplCost, &Vec<Real>) -> Option<Vec<Real>>>(
    f: Arith,
    polish: P,
    observations: Seq<SbplObs>,
    lower: Seq<Real>,
    upper: Seq<Real>,
    start: (Seq<Real>, Real),
    end: (Seq<Real>, Real),
)
    requires
        lower.len() == upper.len(),
        polished(f, polish, observations, lower, upper, start, end),
    ensures
        exists|cube: ScaledSbplCost, xs: Vec<Real>, outcome: Option<Vec<Real>>|
            {
                let edges = Seq::new(lower.len(), |i: int| f(Op::Sub(upper[i], lower[i])));
                &&& #[trigger] call_ensures(polish, (&cube, &xs), outcome)
                &&& cube.inner.observations@ == observations
                &&& cube.lower@ == lower
                &&& cube.scale@ == edges
                &&& xs@ == scaled(f, lower, edges, start.0)
                &&& match outcome {
                    Some(ys) => {
                        let there = unscaled(f, lower, edges, ys@);
                        let c = cost(f, observations, there);
                        if ys@.len() > 0 && finite(c) && less(c, start.1) {
                            end == (there, c)
                        } else {
                            end == start
                        }
                    },
                    None => end == start,
                }
            },
{
    let edges = Seq::new(lower.len(), |i: int| f(Op::Sub(upper[i], lower[i])));
    assert(spans(f, lower, upper) =~= edges);
    let (cube, xs, outcome) = choose|
        cube: ScaledSbplCost,
        xs: Vec<Real>,
        outcome: Option<Vec<Real>>,
    |
        #[trigger]
        call_ensures(polish, (&cube, &xs), outcome) && posed(
            f,
            cube,
            xs,
            observations,
            lower,
            upper,
            start.0,
        ) && end == refined(
            f,
            observations,
            lower,
            spans(f, lower, upper),
            start.0,
            start.1,
            seen(outcome),
        );
    assert(call_ensures(polish, (&cube, &xs), outcome));
}

} // verus!
