//! What holds of numbers, of the cost, of a search and of a refinement.

use vstd::arithmetic::power2::{
    lemma_pow2_pos, lemma_pow2_strictly_increases, lemma_pow2_unfold, pow2,
};
use vstd::prelude::*;

use crate::arith::{Arith, Op};
use crate::cost::{cost, lowered, raised, scaled_cost, unscaled, SbplObs, ScaledSbplCost};
use crate::model::model;
use crate::refine::{refined, scaled, spans};
use crate::rounding::{propagates_nan, rounds_monotonically, subtracts_in_order};
use crate::swarm::{
    advanced, bounded, cheapest, launched, next_pos, next_vel, ordered, part_round, searched, steered,
    ParticleView, SwarmDrawsView, SwarmView,
};
use crate::word::{
    absolute_value, at_most, clamped, finite, less, magnitude, nan, value, Real, INFINITY, NAN,
    NEG_INFINITY, ONE, ZERO,
};

verus! {

/// Larger magnitudes encode larger absolute values.
proof fn lemma_absolute_value_monotone(m: int, n: int)
    requires
        0 <= m < n < INFINITY,
    ensures
        absolute_value(m) < absolute_value(n),
{
    let unit = 0x10_0000_0000_0000int;
    let (e, h) = (m / unit, n / unit);
    let (a, b) = (m % unit, n % unit);
    assert(e <= h);
    if e == h {
        assert(a < b);
        if e > 0 {
            lemma_pow2_pos((e - 1) as nat);
            let p = pow2((e - 1) as nat);
            assert((unit + a) * p < (unit + b) * p) by (nonlinear_arith)
                requires
                    a < b,
                    p > 0,
            ;
        }
    } else {
        let p = pow2((h - 1) as nat);
        lemma_pow2_pos((h - 1) as nat);
        assert((unit + b) * p >= unit * p) by (nonlinear_arith)
            requires
                b >= 0,
                p > 0,
        ;
        if e == 0 {
            assert(unit * p >= unit) by (nonlinear_arith)
                requires
                    p > 0,
                    unit > 0,
            ;
        } else {
            let q = pow2((e - 1) as nat);
            lemma_pow2_pos((e - 1) as nat);
            lemma_pow2_unfold(e as nat);
            assert(pow2(e as nat) == 2 * q);
            assert((unit + a) * q < unit * pow2(e as nat)) by (nonlinear_arith)
                requires
                    a < unit,
                    q > 0,
                    pow2(e as nat) == 2 * q,
            ;
            if e < h - 1 {
                lemma_pow2_strictly_increases(e as nat, (h - 1) as nat);
            }
            assert(unit * pow2(e as nat) <= unit * p) by (nonlinear_arith)
                requires
                    pow2(e as nat) <= p,
                    unit > 0,
            ;
        }
    }
}

/// The order of finite words is the order of the numbers that they encode, and of two
/// words that encode the same number neither is less.
pub proof fn law_order_is_numeric(x: Real, y: Real)
    requires
        finite(x),
        finite(y),
    ensures
        less(x, y) <==> value(x) < value(y),
        at_most(x, y) <==> value(x) <= value(y),
{
    let (m, n) = (magnitude(x), magnitude(y));
    if 0 < m {
        lemma_absolute_value_monotone(0, m);
    }
    if 0 < n {
        lemma_absolute_value_monotone(0, n);
    }
    if m < n {
        lemma_absolute_value_monotone(m, n);
    } else if n < m {
        lemma_absolute_value_monotone(n, m);
    }
}

/// Every finite number lies between the infinities.
pub proof fn law_infinities_bound(x: Real)
    requires
        finite(x),
    ensures
        less(NEG_INFINITY, x),
        less(x, INFINITY),
{
}

/// What is not a number is neither less nor more than anything.
pub proof fn law_nan_is_unordered(x: Real, y: Real)
    requires
        nan(x) || nan(y),
    ensures
        !less(x, y),
        !at_most(x, y),
{
}

/// A clamped number lies within the bounds, and clamping it again changes nothing.
pub proof fn law_clamped_within(x: Real, lo: Real, hi: Real)
    requires
        at_most(lo, hi),
    ensures
        !nan(x) ==> at_most(lo, clamped(x, lo, hi)) && at_most(clamped(x, lo, hi), hi),
        clamped(clamped(x, lo, hi), lo, hi) == clamped(x, lo, hi),
{
}

/// The model never answers with an infinity.
pub proof fn law_model_finite_or_nan(
    f: Arith,
    t: Real,
    nu_scaled: Real,
    alpha1: Real,
    alpha2: Real,
    beta: Real,
    logd: Real,
    loga: Real,
    tb: Real,
    t0: Real,
)
    ensures
        ({
            let flux = model(f, t, nu_scaled, alpha1, alpha2, beta, logd, loga, tb, t0);
            finite(flux) || flux == NAN
        }),
{
}

/// The cost in the unit cube sees a point only as clamped to the cube.
pub proof fn law_scaled_cost_clamps(f: Arith, problem: ScaledSbplCost, xs: Seq<Real>)
    ensures
        scaled_cost(f, problem, xs) == scaled_cost(
            f,
            problem,
            xs.map_values(|x: Real| clamped(x, ZERO, ONE)),
        ),
{
    let ys = xs.map_values(|x: Real| clamped(x, ZERO, ONE));
    assert(unscaled(f, problem.lower@, problem.scale@, xs) =~= unscaled(
        f,
        problem.lower@,
        problem.scale@,
        ys,
    ));
}

/// The solver is started in the cube, wherever the parameters lie.
pub proof fn law_start_in_cube(
    f: Arith,
    lower: Seq<Real>,
    scale: Seq<Real>,
    p: Seq<Real>,
    i: int,
)
    requires
        0 <= i < p.len(),
    ensures
        !less(scaled(f, lower, scale, p)[i], ZERO),
        !less(ONE, scaled(f, lower, scale, p)[i]),
{
}

/// The points at which the gradient is probed differ from `xs` in one coordinate, which
/// does not leave the cube on the side of the step.
pub proof fn law_probes_stay_in_cube(f: Arith, xs: Seq<Real>, i: int)
    requires
        0 <= i < xs.len(),
    ensures
        !less(ONE, raised(f, xs, i)[i]),
        !less(lowered(f, xs, i)[i], ZERO),
        forall|j: int|
            0 <= j < xs.len() && j != i ==> (#[trigger] raised(f, xs, i)[j]) == xs[j],
        forall|j: int|
            0 <= j < xs.len() && j != i ==> (#[trigger] lowered(f, xs, i)[j]) == xs[j],
{
}

/// `after` is `before` or less than it.
pub open spec fn improves(before: Real, after: Real) -> bool {
    after == before || less(after, before)
}

/// Improving is transitive, and nothing that was not below the old cost is below the new.
proof fn lemma_improves(a: Real, b: Real, c: Real)
    requires
        improves(a, b),
    ensures
        improves(b, c) ==> improves(a, c),
        !less(c, a) ==> !less(c, b),
{
}

/// Every recorded cost is the cost at the recorded position, and no particle stands where
/// the cost is below the best of the swarm.
pub open spec fn consistent(f: Arith, observations: Seq<SbplObs>, s: SwarmView) -> bool {
    &&& s.best_cost == cost(f, observations, s.best_pos)
    &&& forall|i: int|
        0 <= i < s.particles.len() ==> {
            let p = #[trigger] s.particles[i];
            &&& p.best_cost == cost(f, observations, p.best_pos)
            &&& !less(p.best_cost, s.best_cost)
            &&& !less(cost(f, observations, p.pos), p.best_cost)
            &&& !less(cost(f, observations, p.pos), s.best_cost)
        }
}

proof fn lemma_advanced_consistent(
    f: Arith,
    observations: Seq<SbplObs>,
    lower: Seq<Real>,
    upper: Seq<Real>,
    s: SwarmView,
    i: int,
    kicks: Seq<Real>,
)
    requires
        consistent(f, observations, s),
        0 <= i < s.particles.len(),
    ensures
        ({
            let t = advanced(f, observations, lower, upper, s, i, kicks);
            &&& consistent(f, observations, t)
            &&& t.particles.len() == s.particles.len()
            &&& improves(s.best_cost, t.best_cost)
        }),
{
    let t = advanced(f, observations, lower, upper, s, i, kicks);
    assert forall|k: int| 0 <= k < t.particles.len() implies {
        let p = #[trigger] t.particles[k];
        &&& p.best_cost == cost(f, observations, p.best_pos)
        &&& !less(p.best_cost, t.best_cost)
        &&& !less(cost(f, observations, p.pos), p.best_cost)
        &&& !less(cost(f, observations, p.pos), t.best_cost)
    } by {
        let p = s.particles[k];
        lemma_improves(s.best_cost, t.best_cost, p.best_cost);
        lemma_improves(s.best_cost, t.best_cost, cost(f, observations, p.pos));
    }
}

proof fn lemma_part_round_consistent(
    f: Arith,
    observations: Seq<SbplObs>,
    lower: Seq<Real>,
    upper: Seq<Real>,
    s: SwarmView,
    kicks: Seq<Seq<Real>>,
    n: nat,
)
    requires
        consistent(f, observations, s),
        n <= s.particles.len(),
    ensures
        ({
            let t = part_round(f, observations, lower, upper, s, kicks, n);
            &&& consistent(f, observations, t)
            &&& t.particles.len() == s.particles.len()
            &&& improves(s.best_cost, t.best_cost)
        }),
    decreases n,
{
    if n > 0 {
        let m = (n - 1) as nat;
        lemma_part_round_consistent(f, observations, lower, upper, s, kicks, m);
        let t = part_round(f, observations, lower, upper, s, kicks, m);
        lemma_advanced_consistent(f, observations, lower, upper, t, n - 1, kicks[n - 1]);
        lemma_improves(
            s.best_cost,
            t.best_cost,
            part_round(f, observations, lower, upper, s, kicks, n).best_cost,
        );
    }
}

/// The chosen cost is among the first `n`, and none of these is less.
proof fn lemma_cheapest(costs: Seq<Real>, n: nat)
    requires
        1 <= n <= costs.len(),
    ensures
        0 <= cheapest(costs, n) < n,
        forall|k: int| 0 <= k < n ==> !less(#[trigger] costs[k], costs[cheapest(costs, n)]),
    decreases n,
{
    if n > 1 {
        lemma_cheapest(costs, (n - 1) as nat);
    }
}

/// In every round of a search the recorded costs are the costs at the recorded positions,
/// and no particle stands where the cost is below the best of the swarm.
pub proof fn law_search_consistent(
    f: Arith,
    observations: Seq<SbplObs>,
    lower: Seq<Real>,
    upper: Seq<Real>,
    draws: SwarmDrawsView,
    n: nat,
)
    requires
        draws.positions.len() >= 1,
    ensures
        consistent(f, observations, searched(f, observations, lower, upper, draws, n)),
        searched(f, observations, lower, upper, draws, n).particles.len()
            == draws.positions.len(),
    decreases n,
{
    if n == 0 {
        let s = launched(f, observations, draws);
        let costs = Seq::new(s.particles.len(), |i: int| s.particles[i].best_cost);
        lemma_cheapest(costs, s.particles.len());
        assert forall|i: int| 0 <= i < s.particles.len() implies !less(
            (#[trigger] s.particles[i]).best_cost,
            s.best_cost,
        ) by {
            assert(costs[i] == s.particles[i].best_cost);
        }
    } else {
        let m = (n - 1) as nat;
        law_search_consistent(f, observations, lower, upper, draws, m);
        lemma_part_round_consistent(
            f,
            observations,
            lower,
            upper,
            searched(f, observations, lower, upper, draws, m),
            draws.kicks[n - 1],
            draws.positions.len(),
        );
    }
}

/// Going on with a search never makes its best cost worse.
pub proof fn law_search_improves(
    f: Arith,
    observations: Seq<SbplObs>,
    lower: Seq<Real>,
    upper: Seq<Real>,
    draws: SwarmDrawsView,
    m: nat,
    n: nat,
)
    requires
        draws.positions.len() >= 1,
        m <= n,
    ensures
        improves(
            searched(f, observations, lower, upper, draws, m).best_cost,
            searched(f, observations, lower, upper, draws, n).best_cost,
        ),
    decreases n,
{
    if m < n {
        let l = (n - 1) as nat;
        law_search_improves(f, observations, lower, upper, draws, m, l);
        law_search_consistent(f, observations, lower, upper, draws, l);
        let s = searched(f, observations, lower, upper, draws, l);
        lemma_part_round_consistent(
            f,
            observations,
            lower,
            upper,
            s,
            draws.kicks[n - 1],
            draws.positions.len(),
        );
        lemma_improves(
            searched(f, observations, lower, upper, draws, m).best_cost,
            s.best_cost,
            searched(f, observations, lower, upper, draws, n).best_cost,
        );
    }
}

/// A search of `n` rounds returns a cost that no position visited on the way undercuts:
/// neither a first position nor one that a particle came to in any of the rounds.
pub proof fn law_search_finds_cheapest_visited(
    f: Arith,
    observations: Seq<SbplObs>,
    lower: Seq<Real>,
    upper: Seq<Real>,
    draws: SwarmDrawsView,
    m: nat,
    n: nat,
    i: int,
)
    requires
        m <= n,
        0 <= i < draws.positions.len(),
    ensures
        !less(
            cost(
                f,
                observations,
                searched(f, observations, lower, upper, draws, m).particles[i].pos,
            ),
            searched(f, observations, lower, upper, draws, n).best_cost,
        ),
{
    law_search_consistent(f, observations, lower, upper, draws, m);
    law_search_improves(f, observations, lower, upper, draws, m, n);
    let s = searched(f, observations, lower, upper, draws, m);
    lemma_improves(
        s.best_cost,
        searched(f, observations, lower, upper, draws, n).best_cost,
        cost(f, observations, s.particles[i].pos),
    );
}

/// No coordinate of `p` lies below its lower or above its upper bound.
pub open spec fn inside(p: Seq<Real>, lower: Seq<Real>, upper: Seq<Real>) -> bool {
    &&& p.len() == bounded(lower, upper)
    &&& forall|d: int|
        0 <= d < bounded(lower, upper) ==> !less(#[trigger] p[d], lower[d]) && !less(upper[d], p[d])
}

/// `keep` holds of all positions of the swarm, present and recorded.
pub open spec fn throughout(s: SwarmView, keep: spec_fn(Seq<Real>) -> bool) -> bool {
    &&& keep(s.best_pos)
    &&& forall|i: int|
        0 <= i < s.particles.len() ==> keep((#[trigger] s.particles[i]).pos) && keep(
            s.particles[i].best_pos,
        )
}

/// All positions of the swarm, present and recorded, are inside the bounds.
pub open spec fn confined(s: SwarmView, lower: Seq<Real>, upper: Seq<Real>) -> bool {
    throughout(s, |p: Seq<Real>| inside(p, lower, upper))
}

proof fn lemma_part_round_keeps(
    f: Arith,
    observations: Seq<SbplObs>,
    lower: Seq<Real>,
    upper: Seq<Real>,
    s: SwarmView,
    kicks: Seq<Seq<Real>>,
    n: nat,
    keep: spec_fn(Seq<Real>) -> bool,
)
    requires
        throughout(s, keep),
        forall|pos: Seq<Real>, vel: Seq<Real>| keep(#[trigger] next_pos(f, lower, upper, pos, vel)),
        n <= s.particles.len(),
    ensures
        throughout(part_round(f, observations, lower, upper, s, kicks, n), keep),
        part_round(f, observations, lower, upper, s, kicks, n).particles.len()
            == s.particles.len(),
    decreases n,
{
    if n > 0 {
        let m = (n - 1) as nat;
        lemma_part_round_keeps(f, observations, lower, upper, s, kicks, m, keep);
        let t = part_round(f, observations, lower, upper, s, kicks, m);
        let p = t.particles[n - 1];
        let vel = next_vel(f, p, t.best_pos, kicks[n - 1], bounded(lower, upper));
        assert(keep(next_pos(f, lower, upper, p.pos, vel)));
    }
}

/// What holds of the first positions and of every position after a move holds throughout
/// a search.
pub proof fn lemma_search_keeps(
    f: Arith,
    observations: Seq<SbplObs>,
    lower: Seq<Real>,
    upper: Seq<Real>,
    draws: SwarmDrawsView,
    n: nat,
    keep: spec_fn(Seq<Real>) -> bool,
)
    requires
        draws.positions.len() >= 1,
        forall|i: int| 0 <= i < draws.positions.len() ==> keep(#[trigger] draws.positions[i]),
        forall|pos: Seq<Real>, vel: Seq<Real>| keep(#[trigger] next_pos(f, lower, upper, pos, vel)),
    ensures
        throughout(searched(f, observations, lower, upper, draws, n), keep),
    decreases n,
{
    if n == 0 {
        let s = launched(f, observations, draws);
        let costs = Seq::new(s.particles.len(), |i: int| s.particles[i].best_cost);
        lemma_cheapest(costs, s.particles.len());
    } else {
        let m = (n - 1) as nat;
        lemma_search_keeps(f, observations, lower, upper, draws, m, keep);
        law_search_consistent(f, observations, lower, upper, draws, m);
        lemma_part_round_keeps(
            f,
            observations,
            lower,
            upper,
            searched(f, observations, lower, upper, draws, m),
            draws.kicks[n - 1],
            draws.positions.len(),
            keep,
        );
    }
}

/// A search that starts inside the bounds never leaves them, and neither does the position
/// that it returns.
pub proof fn law_search_stays_inside(
    f: Arith,
    observations: Seq<SbplObs>,
    lower: Seq<Real>,
    upper: Seq<Real>,
    draws: SwarmDrawsView,
    n: nat,
)
    requires
        ordered(lower, upper),
        draws.positions.len() >= 1,
        forall|i: int|
            0 <= i < draws.positions.len() ==> inside(#[trigger] draws.positions[i], lower, upper),
    ensures
        confined(searched(f, observations, lower, upper, draws, n), lower, upper),
{
    let keep = |p: Seq<Real>| inside(p, lower, upper);
    assert forall|pos: Seq<Real>, vel: Seq<Real>| keep(
        #[trigger] next_pos(f, lower, upper, pos, vel),
    ) by {
        let next = next_pos(f, lower, upper, pos, vel);
        assert forall|d: int| 0 <= d < bounded(lower, upper) implies !less(#[trigger] next[d], lower[d])
            && !less(upper[d], next[d]) by {
            assert(at_most(lower[d], upper[d]));
        }
    }
    lemma_search_keeps(f, observations, lower, upper, draws, n, keep);
}

/// `x` is a number from `lo` to `hi`.
pub open spec fn between(lo: Real, x: Real, hi: Real) -> bool {
    at_most(lo, x) && at_most(x, hi)
}

/// Every coordinate of `p` is a number from its lower to its upper bound.
pub open spec fn within(p: Seq<Real>, lower: Seq<Real>, upper: Seq<Real>) -> bool {
    &&& p.len() == bounded(lower, upper)
    &&& forall|d: int| 0 <= d < bounded(lower, upper) ==> between(lower[d], #[trigger] p[d], upper[d])
}

/// From velocities along `d` for which `calm` holds, and between the bounds, a move makes
/// such velocities again and a sum with the position that is a number.
pub open spec fn steady_along(
    f: Arith,
    lower: Seq<Real>,
    upper: Seq<Real>,
    calm: spec_fn(int, Real) -> bool,
    d: int,
) -> bool {
    forall|vel: Real, pos: Real, own: Real, swarm: Real, k: Real, l: Real|
        calm(d, vel) && between(lower[d], pos, upper[d]) && between(lower[d], own, upper[d])
            && between(lower[d], swarm, upper[d]) && between(ZERO, k, ONE) && between(ZERO, l, ONE)
            ==> {
            let next = #[trigger] steered(f, vel, pos, own, swarm, k, l);
            calm(d, next) && !nan(f(Op::Add(pos, next)))
        }
}

/// Moves are steady along every coordinate.
pub open spec fn steady(
    f: Arith,
    lower: Seq<Real>,
    upper: Seq<Real>,
    calm: spec_fn(int, Real) -> bool,
) -> bool {
    forall|d: int| 0 <= d < bounded(lower, upper) ==> #[trigger] steady_along(f, lower, upper, calm, d)
}

/// `calm` holds of every coordinate of a velocity.
pub open spec fn calms(vel: Seq<Real>, dims: nat, calm: spec_fn(int, Real) -> bool) -> bool {
    forall|d: int| 0 <= d < dims ==> calm(d, #[trigger] vel[d])
}

/// All positions are within the bounds, and `calm` holds of all velocities.
pub open spec fn contained(
    s: SwarmView,
    lower: Seq<Real>,
    upper: Seq<Real>,
    calm: spec_fn(int, Real) -> bool,
) -> bool {
    &&& within(s.best_pos, lower, upper)
    &&& forall|i: int|
        0 <= i < s.particles.len() ==> {
            let p = #[trigger] s.particles[i];
            &&& within(p.pos, lower, upper)
            &&& within(p.best_pos, lower, upper)
            &&& calms(p.vel, bounded(lower, upper), calm)
        }
}

/// Every factor of a move is a number from zero to one.
pub open spec fn fractions(kicks: Seq<Real>, dims: nat) -> bool {
    forall|d: int| 0 <= d < 2 * dims ==> between(ZERO, #[trigger] kicks[d], ONE)
}

proof fn lemma_move_contained(
    f: Arith,
    lower: Seq<Real>,
    upper: Seq<Real>,
    p: ParticleView,
    swarm_best: Seq<Real>,
    kicks: Seq<Real>,
    calm: spec_fn(int, Real) -> bool,
)
    requires
        ordered(lower, upper),
        steady(f, lower, upper, calm),
        within(p.pos, lower, upper),
        within(p.best_pos, lower, upper),
        calms(p.vel, bounded(lower, upper), calm),
        within(swarm_best, lower, upper),
        fractions(kicks, bounded(lower, upper)),
    ensures
        ({
            let vel = next_vel(f, p, swarm_best, kicks, bounded(lower, upper));
            calms(vel, bounded(lower, upper), calm) && within(
                next_pos(f, lower, upper, p.pos, vel),
                lower,
                upper,
            )
        }),
{
    let vel = next_vel(f, p, swarm_best, kicks, bounded(lower, upper));
    let pos = next_pos(f, lower, upper, p.pos, vel);
    assert forall|d: int| 0 <= d < bounded(lower, upper) implies calm(d, #[trigger] vel[d]) && between(
        lower[d],
        pos[d],
        upper[d],
    ) by {
        assert(steady_along(f, lower, upper, calm, d));
        assert(calm(d, p.vel[d]));
        assert(between(lower[d], p.pos[d], upper[d]));
        assert(between(lower[d], p.best_pos[d], upper[d]));
        assert(between(lower[d], swarm_best[d], upper[d]));
        assert(between(ZERO, kicks[2 * d], ONE) && between(ZERO, kicks[2 * d + 1], ONE));
        assert(less(lower[d], upper[d]));
        let next = steered(
            f,
            p.vel[d],
            p.pos[d],
            p.best_pos[d],
            swarm_best[d],
            kicks[2 * d],
            kicks[2 * d + 1],
        );
        assert(vel[d] == next);
        assert(!nan(f(Op::Add(p.pos[d], next))));
    }
}

proof fn lemma_part_round_contained(
    f: Arith,
    observations: Seq<SbplObs>,
    lower: Seq<Real>,
    upper: Seq<Real>,
    s: SwarmView,
    kicks: Seq<Seq<Real>>,
    n: nat,
    calm: spec_fn(int, Real) -> bool,
)
    requires
        ordered(lower, upper),
        steady(f, lower, upper, calm),
        contained(s, lower, upper, calm),
        n <= s.particles.len(),
        forall|i: int| 0 <= i < n ==> fractions(#[trigger] kicks[i], bounded(lower, upper)),
    ensures
        contained(part_round(f, observations, lower, upper, s, kicks, n), lower, upper, calm),
        part_round(f, observations, lower, upper, s, kicks, n).particles.len()
            == s.particles.len(),
    decreases n,
{
    if n > 0 {
        let m = (n - 1) as nat;
        lemma_part_round_contained(f, observations, lower, upper, s, kicks, m, calm);
        let t = part_round(f, observations, lower, upper, s, kicks, m);
        assert(fractions(kicks[n - 1], bounded(lower, upper)));
        lemma_move_contained(
            f,
            lower,
            upper,
            t.particles[n - 1],
            t.best_pos,
            kicks[n - 1],
            calm,
        );
    }
}

/// Every coordinate of a position of a search stays a number from its lower to its upper
/// bound, where it is one at the start and moves are steady.
pub proof fn law_search_stays_within(
    f: Arith,
    observations: Seq<SbplObs>,
    lower: Seq<Real>,
    upper: Seq<Real>,
    draws: SwarmDrawsView,
    n: nat,
    calm: spec_fn(int, Real) -> bool,
)
    requires
        ordered(lower, upper),
        steady(f, lower, upper, calm),
        draws.positions.len() >= 1,
        forall|i: int|
            0 <= i < draws.positions.len() ==> within(#[trigger] draws.positions[i], lower, upper),
        forall|i: int|
            0 <= i < draws.positions.len() ==> calms(
                #[trigger] draws.velocities[i],
                bounded(lower, upper),
                calm,
            ),
        forall|r: int, i: int|
            0 <= r < n && 0 <= i < draws.positions.len() ==> fractions(
                #[trigger] draws.kicks[r][i],
                bounded(lower, upper),
            ),
    ensures
        contained(searched(f, observations, lower, upper, draws, n), lower, upper, calm),
    decreases n,
{
    if n == 0 {
        let s = launched(f, observations, draws);
        let costs = Seq::new(s.particles.len(), |i: int| s.particles[i].best_cost);
        lemma_cheapest(costs, s.particles.len());
        assert forall|i: int| 0 <= i < s.particles.len() implies {
            let p = #[trigger] s.particles[i];
            &&& within(p.pos, lower, upper)
            &&& within(p.best_pos, lower, upper)
            &&& calms(p.vel, bounded(lower, upper), calm)
        } by {
            assert(within(draws.positions[i], lower, upper));
            assert(calms(draws.velocities[i], bounded(lower, upper), calm));
        }
    } else {
        let m = (n - 1) as nat;
        law_search_stays_within(f, observations, lower, upper, draws, m, calm);
        law_search_consistent(f, observations, lower, upper, draws, m);
        let kicks = draws.kicks[n - 1];
        assert forall|i: int| 0 <= i < draws.positions.len() implies fractions(
            #[trigger] kicks[i],
            bounded(lower, upper),
        ) by {
            assert(fractions(draws.kicks[n - 1][i], bounded(lower, upper)));
        }
        lemma_part_round_contained(
            f,
            observations,
            lower,
            upper,
            searched(f, observations, lower, upper, draws, m),
            kicks,
            draws.positions.len(),
            calm,
        );
    }
}

proof fn lemma_flat_round(
    f: Arith,
    observations: Seq<SbplObs>,
    lower: Seq<Real>,
    upper: Seq<Real>,
    s: SwarmView,
    kicks: Seq<Seq<Real>>,
    n: nat,
    calm: spec_fn(int, Real) -> bool,
    c: Real,
)
    requires
        ordered(lower, upper),
        steady(f, lower, upper, calm),
        contained(s, lower, upper, calm),
        n <= s.particles.len(),
        forall|i: int| 0 <= i < n ==> fractions(#[trigger] kicks[i], bounded(lower, upper)),
        forall|p: Seq<Real>| #[trigger] within(p, lower, upper) ==> cost(f, observations, p) == c,
        s.best_cost == c,
    ensures
        ({
            let t = part_round(f, observations, lower, upper, s, kicks, n);
            t.best_pos == s.best_pos && t.best_cost == c
        }),
    decreases n,
{
    if n > 0 {
        let m = (n - 1) as nat;
        lemma_flat_round(f, observations, lower, upper, s, kicks, m, calm, c);
        lemma_part_round_contained(f, observations, lower, upper, s, kicks, m, calm);
        let t = part_round(f, observations, lower, upper, s, kicks, m);
        let p = t.particles[n - 1];
        assert(fractions(kicks[n - 1], bounded(lower, upper)));
        lemma_move_contained(f, lower, upper, p, t.best_pos, kicks[n - 1], calm);
        let vel = next_vel(f, p, t.best_pos, kicks[n - 1], bounded(lower, upper));
        assert(within(next_pos(f, lower, upper, p.pos, vel), lower, upper));
    }
}

proof fn lemma_cheapest_of_equals(costs: Seq<Real>, n: nat, c: Real)
    requires
        n <= costs.len(),
        forall|i: int| 0 <= i < n ==> #[trigger] costs[i] == c,
    ensures
        cheapest(costs, n) == 0,
    decreases n,
{
    if n > 1 {
        lemma_cheapest_of_equals(costs, (n - 1) as nat, c);
        assert(costs[n - 1] == c && costs[0] == c);
    }
}

/// With one and the same cost everywhere between the bounds, a search of steady moves
/// returns the first of its first positions, however many particles and rounds it has:
/// only a lower cost replaces the best.
pub proof fn law_flat_search_keeps_first(
    f: Arith,
    observations: Seq<SbplObs>,
    lower: Seq<Real>,
    upper: Seq<Real>,
    draws: SwarmDrawsView,
    n: nat,
    calm: spec_fn(int, Real) -> bool,
    c: Real,
)
    requires
        ordered(lower, upper),
        steady(f, lower, upper, calm),
        draws.positions.len() >= 1,
        forall|i: int|
            0 <= i < draws.positions.len() ==> within(#[trigger] draws.positions[i], lower, upper),
        forall|i: int|
            0 <= i < draws.positions.len() ==> calms(
                #[trigger] draws.velocities[i],
                bounded(lower, upper),
                calm,
            ),
        forall|r: int, i: int|
            0 <= r < n && 0 <= i < draws.positions.len() ==> fractions(
                #[trigger] draws.kicks[r][i],
                bounded(lower, upper),
            ),
        forall|p: Seq<Real>| #[trigger] within(p, lower, upper) ==> cost(f, observations, p) == c,
    ensures
        searched(f, observations, lower, upper, draws, n).best_pos == draws.positions[0],
        searched(f, observations, lower, upper, draws, n).best_cost == c,
    decreases n,
{
    if n == 0 {
        let s = launched(f, observations, draws);
        let costs = Seq::new(s.particles.len(), |i: int| s.particles[i].best_cost);
        assert forall|i: int| 0 <= i < costs.len() implies #[trigger] costs[i] == c by {
            assert(within(draws.positions[i], lower, upper));
        }
        lemma_cheapest_of_equals(costs, costs.len(), c);
        assert(costs[0] == c);
    } else {
        let m = (n - 1) as nat;
        law_flat_search_keeps_first(f, observations, lower, upper, draws, m, calm, c);
        law_search_stays_within(f, observations, lower, upper, draws, m, calm);
        law_search_consistent(f, observations, lower, upper, draws, m);
        let kicks = draws.kicks[n - 1];
        assert forall|i: int| 0 <= i < draws.positions.len() implies fractions(
            #[trigger] kicks[i],
            bounded(lower, upper),
        ) by {
            assert(fractions(draws.kicks[n - 1][i], bounded(lower, upper)));
        }
        lemma_flat_round(
            f,
            observations,
            lower,
            upper,
            searched(f, observations, lower, upper, draws, m),
            kicks,
            draws.positions.len(),
            calm,
            c,
        );
    }
}

/// The least physical parameter between the bounds: that at coordinate zero.
pub open spec fn foot(f: Arith, lo: Real, hi: Real) -> Real {
    f(Op::Add(lo, f(Op::Mul(ZERO, f(Op::Sub(hi, lo))))))
}

/// The largest physical parameter between the bounds: that at coordinate one. Rounding may
/// take it past the upper bound.
pub open spec fn head(f: Arith, lo: Real, hi: Real) -> Real {
    f(Op::Add(lo, f(Op::Mul(ONE, f(Op::Sub(hi, lo))))))
}

/// Each physical parameter lies from that at coordinate zero to that at coordinate one. It
/// is a number if its coordinate is one, and none otherwise.
pub proof fn law_unscaled_between(
    f: Arith,
    lower: Seq<Real>,
    upper: Seq<Real>,
    xs: Seq<Real>,
    d: int,
)
    requires
        rounds_monotonically(f),
        subtracts_in_order(f),
        propagates_nan(f),
        0 <= d < bounded(lower, upper),
        d < xs.len(),
        less(lower[d], upper[d]),
        finite(f(Op::Sub(upper[d], lower[d]))),
    ensures
        ({
            let x = unscaled(f, lower, spans(f, lower, upper), xs)[d];
            if nan(xs[d]) {
                nan(x)
            } else {
                between(foot(f, lower[d], upper[d]), x, head(f, lower[d], upper[d]))
            }
        }),
{
    let span = f(Op::Sub(upper[d], lower[d]));
    let u = clamped(xs[d], ZERO, ONE);
    let (a, b, c) = (f(Op::Mul(ZERO, span)), f(Op::Mul(u, span)), f(Op::Mul(ONE, span)));
    assert(unscaled(f, lower, spans(f, lower, upper), xs)[d] == f(Op::Add(lower[d], b)));
    assert(at_most(ZERO, ONE));
    if !nan(xs[d]) {
        assert(at_most(ZERO, u) && at_most(u, ONE));
        assert(at_most(a, b) && at_most(b, c));
        assert(at_most(f(Op::Add(lower[d], a)), f(Op::Add(lower[d], b))));
        assert(at_most(f(Op::Add(lower[d], b)), f(Op::Add(lower[d], c))));
    }
}

/// Each coordinate that refinement returns is that of the start, or a number from the
/// parameter at coordinate zero to that at coordinate one, or none where that of the
/// solver's end was none.
pub proof fn law_refined_between(
    f: Arith,
    observations: Seq<SbplObs>,
    lower: Seq<Real>,
    upper: Seq<Real>,
    start: Seq<Real>,
    start_cost: Real,
    outcome: Option<Seq<Real>>,
    d: int,
)
    requires
        rounds_monotonically(f),
        subtracts_in_order(f),
        propagates_nan(f),
        0 <= d < bounded(lower, upper),
        outcome matches Some(xs) ==> xs.len() == 0 || d < xs.len(),
        less(lower[d], upper[d]),
        finite(f(Op::Sub(upper[d], lower[d]))),
    ensures
        ({
            let x = refined(
                f,
                observations,
                lower,
                spans(f, lower, upper),
                start,
                start_cost,
                outcome,
            ).0[d];
            ||| x == start[d]
            ||| between(foot(f, lower[d], upper[d]), x, head(f, lower[d], upper[d]))
            ||| nan(x) && (outcome matches Some(xs) && nan(xs[d]))
        }),
{
    if let Some(xs) = outcome {
        if xs.len() > 0 {
            law_unscaled_between(f, lower, upper, xs, d);
        }
    }
}

/// Where a solver ends has no coordinates or as many as there are bounds.
pub open spec fn whole_or_empty(outcome: Option<Seq<Real>>, dims: nat) -> bool {
    outcome matches Some(xs) ==> xs.len() == 0 || xs.len() == dims
}

/// Refinement never makes the cost worse, whatever the solver ended at, and the cost that
/// it returns is the cost of the parameters that it returns.
pub proof fn law_refined_improves(
    f: Arith,
    observations: Seq<SbplObs>,
    lower: Seq<Real>,
    scale: Seq<Real>,
    start: Seq<Real>,
    outcome: Option<Seq<Real>>,
)
    ensures
        ({
            let start_cost = cost(f, observations, start);
            let end = refined(f, observations, lower, scale, start, start_cost, outcome);
            improves(start_cost, end.1) && end.1 == cost(f, observations, end.0)
        }),
{
}

} // verus!
