//! What holds of a whole fit: which observations it sees, which outcome it reports, and
//! what its result does not depend on.

use vstd::prelude::*;

use crate::arith::{Arith, Op};
use crate::bands::{Band, BandData};
use crate::cost::{cost, SbplObs, ScaledSbplCost, N_PARAMS};
use crate::fit::{
    all_restarted, attempted, best, concluded, converted, fit_result, fitted, lower_bounds, physical,
    restart_outcomes, restart_search, restart_state, searchable, spread, upper_bounds, BETA, LOGA,
    N_ITERS, N_PARTICLES, N_RESTARTS,
};
use crate::laws::{
    between, calms, foot, fractions, head, improves, inside, law_flat_search_keeps_first,
    law_refined_between, law_search_consistent, law_search_stays_inside, law_search_stays_within,
    lemma_search_keeps, steady, whole_or_empty, within,
};
use crate::model::frequency;
use crate::observe::{
    band_count, band_observations, contribution, earliest, flux_unit, gathered, latest,
    normalised, observation_count, peak, usable_count,
};
use crate::refine::{
    follows, polished, posed, refined, refinement, scaled, seen, spans, Solver,
};
use crate::result::{reported, SbplResult};
use crate::rounding::{propagates_nan, rounds_monotonically, subtracts_in_order};
use crate::swarm::{
    bounded, drawable, drawable_along, drawn, drawn_swarm, drawn_table, drawn_tables, found,
    kick_requests, lemma_drawable_ordered, ordered, position_requests, searched, velocity_requests,
    Draw, Source,
};
use crate::word::{
    at_most, finite, less, nan, Real, FIVE, INFINITY, MINUS_FIVE, MINUS_TEN, MINUS_TENTH,
    NEG_INFINITY, ONE, TEN, TENTH, ZERO,
};

verus! {

/// `o` is finite throughout and has a positive uncertainty.
pub open spec fn sound(o: SbplObs) -> bool {
    finite(o.time) && finite(o.flux) && finite(o.flux_err) && less(ZERO, o.flux_err)
}

proof fn lemma_band_observations_sound(f: Arith, nu: Real, data: BandData, n: nat)
    ensures
        band_observations(f, nu, data, n).len() == usable_count(data, n),
        forall|i: int|
            0 <= i < band_observations(f, nu, data, n).len() ==> sound(
                #[trigger] band_observations(f, nu, data, n)[i],
            ),
    decreases n,
{
    if n > 0 {
        lemma_band_observations_sound(f, nu, data, (n - 1) as nat);
    }
}

/// A fit sees only sound observations, as many as are counted.
pub proof fn law_gathered_sound(f: Arith, bands: Seq<Band>)
    ensures
        gathered(f, bands).len() == observation_count(bands),
        forall|i: int| 0 <= i < gathered(f, bands).len() ==> sound(#[trigger] gathered(f, bands)[i]),
    decreases bands.len(),
{
    if bands.len() > 0 {
        law_gathered_sound(f, bands.drop_last());
        let band = bands.last();
        if let Some(nu) = frequency(f, band.wavelength) {
            lemma_band_observations_sound(f, nu, band.data, band.data.times@.len());
        }
        let (a, b) = (gathered(f, bands.drop_last()), contribution(f, band));
        assert forall|i: int| 0 <= i < gathered(f, bands).len() implies sound(
            #[trigger] gathered(f, bands)[i],
        ) by {
            if i < a.len() {
                assert(gathered(f, bands)[i] == a[i]);
            } else {
                assert(gathered(f, bands)[i] == b[i - a.len()]);
            }
        }
    }
}

/// Of sound observations the earliest and the latest time are times of observations, and
/// no observation lies before the one or after the other.
pub proof fn law_time_range(observations: Seq<SbplObs>)
    requires
        observations.len() > 0,
        forall|i: int| 0 <= i < observations.len() ==> sound(#[trigger] observations[i]),
    ensures
        exists|i: int|
            0 <= i < observations.len() && earliest(observations) == (
            #[trigger] observations[i]).time,
        exists|i: int|
            0 <= i < observations.len() && latest(observations) == (
            #[trigger] observations[i]).time,
        forall|i: int|
            0 <= i < observations.len() ==> at_most(
                earliest(observations),
                (#[trigger] observations[i]).time,
            ) && at_most(observations[i].time, latest(observations)),
    decreases observations.len(),
{
    let n = observations.len() - 1;
    let before = observations.drop_last();
    assert(sound(observations[n]));
    if n > 0 {
        assert forall|i: int| 0 <= i < before.len() implies sound(#[trigger] before[i]) by {
            assert(before[i] == observations[i]);
        }
        law_time_range(before);
        let a = choose|i: int| 0 <= i < before.len() && earliest(before) == (#[trigger] before[i]).time;
        let b = choose|i: int| 0 <= i < before.len() && latest(before) == (#[trigger] before[i]).time;
        assert(observations[a] == before[a] && observations[b] == before[b]);
        assert forall|i: int| 0 <= i < observations.len() implies at_most(
            earliest(observations),
            (#[trigger] observations[i]).time,
        ) && at_most(observations[i].time, latest(observations)) by {
            if i < n {
                assert(before[i] == observations[i]);
            }
        }
    } else {
        assert(earliest(before) == INFINITY && latest(before) == NEG_INFINITY);
    }
}

proof fn lemma_peak(observations: Seq<SbplObs>)
    requires
        forall|i: int| 0 <= i < observations.len() ==> sound(#[trigger] observations[i]),
    ensures
        peak(observations) == NEG_INFINITY || exists|i: int|
            0 <= i < observations.len() && peak(observations) == (#[trigger] observations[i]).flux
                && less(ZERO, observations[i].flux),
        forall|i: int|
            0 <= i < observations.len() && less(ZERO, (#[trigger] observations[i]).flux)
                ==> at_most(observations[i].flux, peak(observations)),
    decreases observations.len(),
{
    if observations.len() > 0 {
        let n = observations.len() - 1;
        let before = observations.drop_last();
        assert(sound(observations[n]));
        assert forall|i: int| 0 <= i < before.len() implies sound(#[trigger] before[i]) by {
            assert(before[i] == observations[i]);
        }
        lemma_peak(before);
        if peak(before) != NEG_INFINITY {
            let a = choose|i: int|
                0 <= i < before.len() && peak(before) == (#[trigger] before[i]).flux && less(
                    ZERO,
                    before[i].flux,
                );
            assert(observations[a] == before[a]);
            assert(sound(before[a]));
        }
        assert forall|i: int|
            0 <= i < observations.len() && less(ZERO, (#[trigger] observations[i]).flux) implies at_most(
            observations[i].flux,
            peak(observations),
        ) by {
            if i < n {
                assert(before[i] == observations[i]);
            }
        }
    }
}

/// The unit of flux is finite and positive, no flux exceeds it if any is positive, and it
/// is then the flux of an observation. If none is positive the unit is one.
pub proof fn law_flux_unit(observations: Seq<SbplObs>)
    requires
        forall|i: int| 0 <= i < observations.len() ==> sound(#[trigger] observations[i]),
    ensures
        finite(flux_unit(observations)),
        less(ZERO, flux_unit(observations)),
        forall|i: int|
            0 <= i < observations.len() && less(ZERO, (#[trigger] observations[i]).flux)
                ==> at_most(observations[i].flux, flux_unit(observations)),
        (exists|i: int| 0 <= i < observations.len() && less(ZERO, (#[trigger] observations[i]).flux))
            ==> exists|i: int|
            0 <= i < observations.len() && flux_unit(observations) == (
            #[trigger] observations[i]).flux,
        (forall|i: int|
            0 <= i < observations.len() ==> !less(ZERO, (#[trigger] observations[i]).flux))
            ==> flux_unit(observations) == ONE,
{
    lemma_peak(observations);
}

/// The reported outcome is undercut by none. It is the first of the outcomes that are not
/// undercut, or, where no outcome is cheaper than infinity, the fallback.
pub proof fn law_best_is_cheapest(fallback: Seq<Real>, outcomes: Seq<(Seq<Real>, Real)>)
    ensures
        forall|j: int|
            0 <= j < outcomes.len() ==> !less(
                (#[trigger] outcomes[j]).1,
                best(fallback, outcomes).1,
            ),
        best(fallback, outcomes) == (fallback, INFINITY) || exists|k: int|
            #![trigger outcomes[k]]
            0 <= k < outcomes.len() && best(fallback, outcomes) == outcomes[k] && forall|j: int|
                0 <= j < k ==> !at_most((#[trigger] outcomes[j]).1, outcomes[k].1),
        less(best(fallback, outcomes).1, INFINITY) || best(fallback, outcomes).1 == INFINITY,
    decreases outcomes.len(),
{
    if outcomes.len() > 0 {
        let before = outcomes.drop_last();
        let n = outcomes.len() - 1;
        law_best_is_cheapest(fallback, before);
        let b = best(fallback, before);
        assert forall|j: int| 0 <= j < outcomes.len() implies !less(
            (#[trigger] outcomes[j]).1,
            best(fallback, outcomes).1,
        ) by {
            if j < n {
                assert(outcomes[j] == before[j]);
            }
        }
        if less(outcomes[n].1, b.1) {
            assert forall|j: int| 0 <= j < n implies !at_most(
                (#[trigger] outcomes[j]).1,
                outcomes[n].1,
            ) by {
                assert(outcomes[j] == before[j]);
            }
        } else if b != (fallback, INFINITY) {
            let k = choose|k: int|
                #![trigger before[k]]
                0 <= k < before.len() && b == before[k] && forall|j: int|
                    0 <= j < k ==> !at_most((#[trigger] before[j]).1, before[k].1);
            assert(outcomes[k] == before[k]);
            assert forall|j: int| 0 <= j < k implies !at_most(
                (#[trigger] outcomes[j]).1,
                outcomes[k].1,
            ) by {
                assert(outcomes[j] == before[j]);
            }
        }
    }
}

/// The cost of each outcome is that of its parameters and does not exceed what the search
/// of its restart found.
pub proof fn law_outcomes_consistent<
    S,
    P: Fn(&ScaledSbplCost, &Vec<Real>) -> Option<Vec<Real>>,
>(
    f: Arith,
    g: Source<S>,
    polish: P,
    s: S,
    observations: Seq<SbplObs>,
    lower: Seq<Real>,
    upper: Seq<Real>,
    outcomes: Seq<(Seq<Real>, Real)>,
    k: int,
)
    requires
        all_restarted(f, g, polish, s, observations, lower, upper, outcomes),
        0 <= k < outcomes.len(),
    ensures
        outcomes[k].1 == cost(f, observations, outcomes[k].0),
        improves(
            restart_search(f, g, s, observations, lower, upper, k as nat).1,
            outcomes[k].1,
        ),
{
    let state = restart_state(f, g, s, lower, upper, k as nat);
    let (_, draws) = drawn_swarm(
        f,
        g,
        state,
        lower,
        upper,
        N_PARTICLES as nat,
        N_ITERS as nat,
    );
    lemma_drawn_table_answers(g, state, position_requests(lower, upper), N_PARTICLES as nat);
    law_search_consistent(f, observations, lower, upper, draws, N_ITERS as nat);
    assert(polished(
        f,
        polish,
        observations,
        lower,
        upper,
        restart_search(f, g, s, observations, lower, upper, k as nat),
        outcomes[k],
    ));
}

/// `x` is an answer of the source to `q` in some state.
spec fn answer<S>(g: Source<S>, q: Draw, x: Real) -> bool {
    exists|t: S| x == (#[trigger] g(t, q)).1
}

/// Each of `xs` is an answer to the request in its place.
spec fn answers<S>(g: Source<S>, requests: Seq<Draw>, xs: Seq<Real>) -> bool {
    xs.len() == requests.len() && forall|d: int|
        0 <= d < requests.len() ==> answer(g, requests[d], #[trigger] xs[d])
}

proof fn lemma_drawn_answers<S>(g: Source<S>, s: S, requests: Seq<Draw>)
    ensures
        answers(g, requests, drawn(g, s, requests).1),
    decreases requests.len(),
{
    if requests.len() > 0 {
        let before = drawn(g, s, requests.drop_last());
        let xs = drawn(g, s, requests).1;
        lemma_drawn_answers(g, s, requests.drop_last());
        assert forall|d: int| 0 <= d < requests.len() implies answer(
            g,
            requests[d],
            #[trigger] xs[d],
        ) by {
            if d < requests.len() - 1 {
                assert(answer(g, requests.drop_last()[d], before.1[d]));
            } else {
                assert(xs[d] == g(before.0, requests[d]).1);
            }
        }
    }
}

proof fn lemma_drawn_table_answers<S>(g: Source<S>, s: S, requests: Seq<Draw>, n: nat)
    ensures
        drawn_table(g, s, requests, n).1.len() == n,
        forall|i: int|
            0 <= i < n ==> answers(g, requests, #[trigger] drawn_table(g, s, requests, n).1[i]),
        n > 0 ==> drawn_table(g, s, requests, n).1[0] == drawn(g, s, requests).1,
    decreases n,
{
    if n > 0 {
        let m = (n - 1) as nat;
        lemma_drawn_table_answers(g, s, requests, m);
        lemma_drawn_answers(g, drawn_table(g, s, requests, m).0, requests);
        let (t, u) = (drawn_table(g, s, requests, m).1, drawn_table(g, s, requests, n).1);
        assert forall|i: int| 0 <= i < n implies answers(g, requests, #[trigger] u[i]) by {
            if i < m {
                assert(u[i] == t[i]);
            }
        }
    }
}

proof fn lemma_drawn_tables_answers<S>(g: Source<S>, s: S, requests: Seq<Draw>, rows: nat, n: nat)
    ensures
        drawn_tables(g, s, requests, rows, n).1.len() == n,
        forall|r: int, i: int|
            0 <= r < n && 0 <= i < rows ==> answers(
                g,
                requests,
                #[trigger] drawn_tables(g, s, requests, rows, n).1[r][i],
            ),
    decreases n,
{
    if n > 0 {
        let m = (n - 1) as nat;
        lemma_drawn_tables_answers(g, s, requests, rows, m);
        let before = drawn_tables(g, s, requests, rows, m);
        lemma_drawn_table_answers(g, before.0, requests, rows);
        let u = drawn_tables(g, s, requests, rows, n).1;
        assert forall|r: int, i: int| 0 <= r < n && 0 <= i < rows implies answers(
            g,
            requests,
            #[trigger] u[r][i],
        ) by {
            if r < m {
                assert(u[r] == before.1[r]);
                assert(answers(g, requests, before.1[r][i]));
            } else {
                assert(answers(g, requests, drawn_table(g, before.0, requests, rows).1[i]));
            }
        }
    }
}

/// The source keeps to the ranges that it is asked for.
pub open spec fn keeps_ranges<S>(g: Source<S>) -> bool {
    &&& forall|s: S| between(ZERO, (#[trigger] g(s, Draw::Unit)).1, ONE)
    &&& forall|s: S, lo: Real, hi: Real|
        less(lo, hi) ==> between(lo, (#[trigger] g(s, Draw::Between(lo, hi))).1, hi)
}

proof fn lemma_drawn_positions_within<S>(
    g: Source<S>,
    s: S,
    lower: Seq<Real>,
    upper: Seq<Real>,
    n: nat,
)
    requires
        keeps_ranges(g),
        ordered(lower, upper),
    ensures
        drawn_table(g, s, position_requests(lower, upper), n).1.len() == n,
        forall|i: int|
            0 <= i < n ==> within(
                #[trigger] drawn_table(g, s, position_requests(lower, upper), n).1[i],
                lower,
                upper,
            ),
{
    let requests = position_requests(lower, upper);
    let table = drawn_table(g, s, requests, n).1;
    lemma_drawn_table_answers(g, s, requests, n);
    assert forall|i: int| 0 <= i < n implies within(#[trigger] table[i], lower, upper) by {
        assert(answers(g, requests, table[i]));
        assert forall|d: int| 0 <= d < bounded(lower, upper) implies between(
            lower[d],
            #[trigger] table[i][d],
            upper[d],
        ) by {
            assert(answer(g, requests[d], table[i][d]));
            assert(less(lower[d], upper[d]));
        }
    }
}

/// What a search finds lies inside the bounds, whatever the arithmetic, as long as the
/// source keeps to the ranges that it is asked for.
pub proof fn law_found_inside<S>(
    f: Arith,
    g: Source<S>,
    s: S,
    observations: Seq<SbplObs>,
    lower: Seq<Real>,
    upper: Seq<Real>,
    n_particles: nat,
    n_iters: nat,
)
    requires
        keeps_ranges(g),
        ordered(lower, upper),
        n_particles >= 1,
    ensures
        inside(
            found(f, g, s, observations, lower, upper, n_particles, n_iters).1,
            lower,
            upper,
        ),
{
    lemma_drawn_positions_within(g, s, lower, upper, n_particles);
    let (_, draws) = drawn_swarm(f, g, s, lower, upper, n_particles, n_iters);
    assert forall|i: int| 0 <= i < draws.positions.len() implies inside(
        #[trigger] draws.positions[i],
        lower,
        upper,
    ) by {
        lemma_within_inside(draws.positions[i], lower, upper);
    }
    law_search_stays_inside(f, observations, lower, upper, draws, n_iters);
}

proof fn lemma_within_inside(p: Seq<Real>, lower: Seq<Real>, upper: Seq<Real>)
    requires
        within(p, lower, upper),
    ensures
        inside(p, lower, upper),
{
    assert forall|d: int| 0 <= d < bounded(lower, upper) implies !less(#[trigger] p[d], lower[d]) && !less(
        upper[d],
        p[d],
    ) by {
        assert(between(lower[d], p[d], upper[d]));
    }
}

/// What a search finds has as many coordinates as there are bounds.
pub proof fn lemma_found_shape<S>(
    f: Arith,
    g: Source<S>,
    s: S,
    observations: Seq<SbplObs>,
    lower: Seq<Real>,
    upper: Seq<Real>,
    n_particles: nat,
    n_iters: nat,
)
    requires
        n_particles >= 1,
    ensures
        found(f, g, s, observations, lower, upper, n_particles, n_iters).1.len() == bounded(lower, upper),
{
    let keep = |p: Seq<Real>| p.len() == bounded(lower, upper);
    let requests = position_requests(lower, upper);
    lemma_drawn_table_answers(g, s, requests, n_particles);
    let (_, draws) = drawn_swarm(f, g, s, lower, upper, n_particles, n_iters);
    assert forall|i: int| 0 <= i < draws.positions.len() implies keep(
        #[trigger] draws.positions[i],
    ) by {
        assert(answers(g, requests, draws.positions[i]));
    }
    lemma_search_keeps(f, observations, lower, upper, draws, n_iters, keep);
    assert(keep(searched(f, observations, lower, upper, draws, n_iters).best_pos));
}

/// `calm` holds of every first velocity.
pub open spec fn launches_calmly(
    f: Arith,
    lower: Seq<Real>,
    upper: Seq<Real>,
    calm: spec_fn(int, Real) -> bool,
) -> bool {
    forall|d: int, vel: Real|
        0 <= d < bounded(lower, upper) && {
            let span = f(Op::Sub(upper[d], lower[d]));
            between(f(Op::Mul(MINUS_TENTH, span)), vel, f(Op::Mul(TENTH, span)))
        } ==> #[trigger] calm(d, vel)
}

proof fn lemma_drawn_swarm_calm<S>(
    f: Arith,
    g: Source<S>,
    s: S,
    lower: Seq<Real>,
    upper: Seq<Real>,
    n_particles: nat,
    n_iters: nat,
    calm: spec_fn(int, Real) -> bool,
)
    requires
        keeps_ranges(g),
        drawable(f, lower, upper),
        launches_calmly(f, lower, upper, calm),
    ensures
        ({
            let draws = drawn_swarm(f, g, s, lower, upper, n_particles, n_iters).1;
            &&& forall|i: int|
                0 <= i < n_particles ==> calms(#[trigger] draws.velocities[i], bounded(lower, upper), calm)
            &&& forall|r: int, i: int|
                0 <= r < n_iters && 0 <= i < n_particles ==> fractions(
                    #[trigger] draws.kicks[r][i],
                    bounded(lower, upper),
                )
        }),
{
    let (s1, _) = drawn_table(g, s, position_requests(lower, upper), n_particles);
    let requests = velocity_requests(f, lower, upper);
    let (s2, velocities) = drawn_table(g, s1, requests, n_particles);
    let units = kick_requests(bounded(lower, upper));
    let (_, kicks) = drawn_tables(g, s2, units, n_particles, n_iters);
    lemma_drawn_table_answers(g, s1, requests, n_particles);
    lemma_drawn_tables_answers(g, s2, units, n_particles, n_iters);
    assert forall|i: int| 0 <= i < n_particles implies calms(
        #[trigger] velocities[i],
        bounded(lower, upper),
        calm,
    ) by {
        assert(answers(g, requests, velocities[i]));
        assert forall|d: int| 0 <= d < bounded(lower, upper) implies calm(d, #[trigger] velocities[i][d]) by {
            assert(drawable_along(f, lower, upper, d));
            assert(answer(g, requests[d], velocities[i][d]));
        }
    }
    assert forall|r: int, i: int| 0 <= r < n_iters && 0 <= i < n_particles implies fractions(
        #[trigger] kicks[r][i],
        bounded(lower, upper),
    ) by {
        assert(answers(g, units, kicks[r][i]));
        assert forall|d: int| 0 <= d < 2 * bounded(lower, upper) implies between(
            ZERO,
            #[trigger] kicks[r][i][d],
            ONE,
        ) by {
            assert(answer(g, units[d], kicks[r][i][d]));
        }
    }
}

/// Where moves are steady, each coordinate that a search finds is a number from its lower
/// to its upper bound.
pub proof fn law_found_within<S>(
    f: Arith,
    g: Source<S>,
    s: S,
    observations: Seq<SbplObs>,
    lower: Seq<Real>,
    upper: Seq<Real>,
    n_particles: nat,
    n_iters: nat,
    calm: spec_fn(int, Real) -> bool,
)
    requires
        keeps_ranges(g),
        drawable(f, lower, upper),
        launches_calmly(f, lower, upper, calm),
        steady(f, lower, upper, calm),
        n_particles >= 1,
    ensures
        within(
            found(f, g, s, observations, lower, upper, n_particles, n_iters).1,
            lower,
            upper,
        ),
{
    lemma_drawable_ordered(f, lower, upper);
    lemma_drawn_positions_within(g, s, lower, upper, n_particles);
    lemma_drawn_swarm_calm(f, g, s, lower, upper, n_particles, n_iters, calm);
    let (_, draws) = drawn_swarm(f, g, s, lower, upper, n_particles, n_iters);
    law_search_stays_within(f, observations, lower, upper, draws, n_iters, calm);
}

/// With one and the same cost everywhere between the bounds, the search returns the first
/// position that it drew, whatever the numbers of particles and rounds.
pub proof fn law_flat_cost_finds_first<S>(
    f: Arith,
    g: Source<S>,
    s: S,
    observations: Seq<SbplObs>,
    lower: Seq<Real>,
    upper: Seq<Real>,
    n_particles: nat,
    n_iters: nat,
    calm: spec_fn(int, Real) -> bool,
    c: Real,
)
    requires
        keeps_ranges(g),
        drawable(f, lower, upper),
        launches_calmly(f, lower, upper, calm),
        steady(f, lower, upper, calm),
        n_particles >= 1,
        forall|p: Seq<Real>| #[trigger] within(p, lower, upper) ==> cost(f, observations, p) == c,
    ensures
        found(f, g, s, observations, lower, upper, n_particles, n_iters).1 == drawn(
            g,
            s,
            position_requests(lower, upper),
        ).1,
        found(f, g, s, observations, lower, upper, n_particles, n_iters).2 == c,
{
    lemma_drawable_ordered(f, lower, upper);
    lemma_drawn_positions_within(g, s, lower, upper, n_particles);
    lemma_drawn_table_answers(g, s, position_requests(lower, upper), n_particles);
    lemma_drawn_swarm_calm(f, g, s, lower, upper, n_particles, n_iters, calm);
    let (_, draws) = drawn_swarm(f, g, s, lower, upper, n_particles, n_iters);
    law_flat_search_keeps_first(f, observations, lower, upper, draws, n_iters, calm, c);
}

/// The conversion to physical units changes the amplitude and nothing else.
pub proof fn law_physical_changes_amplitude_only(f: Arith, p: Seq<Real>, log_unit: Real, i: int)
    requires
        p.len() >= N_PARAMS,
        0 <= i < p.len(),
        i != LOGA,
    ensures
        physical(f, p, log_unit).len() == p.len(),
        physical(f, p, log_unit)[i] == p[i],
{
}

proof fn lemma_polished_follows<P: Fn(&ScaledSbplCost, &Vec<Real>) -> Option<Vec<Real>>>(
    f: Arith,
    h: Solver,
    polish: P,
    observations: Seq<SbplObs>,
    lower: Seq<Real>,
    upper: Seq<Real>,
    start: (Seq<Real>, Real),
    end: (Seq<Real>, Real),
)
    requires
        follows(polish, h),
        polished(f, polish, observations, lower, upper, start, end),
    ensures
        end == refinement(f, h, observations, lower, upper, start),
{
    let (cube, xs, outcome) = choose|
        cube: ScaledSbplCost,
        xs: Vec<Real>,
        outcome: Option<Vec<Real>>,
    |
        #[trigger]
        call_ensures(polish, (&cube, &xs), outcome) && posed(
            f,
            cube,
            xs,
            observations,
            lower,
            upper,
            start.0,
        ) && end == refined(
            f,
            observations,
            lower,
            spans(f, lower, upper),
            start.0,
            start.1,
            seen(outcome),
        );
    assert(call_ensures(polish, (&cube, &xs), outcome));
}

/// The fit is deterministic: every result that it may have with a solver that ends where
/// `h` says is the one result that arithmetic, random source, state and solver determine.
pub proof fn law_fit_deterministic<
    S,
    P: Fn(&ScaledSbplCost, &Vec<Real>) -> Option<Vec<Real>>,
>(
    f: Arith,
    g: Source<S>,
    h: Solver,
    polish: P,
    s: S,
    bands: Seq<Band>,
    r: Option<SbplResult>,
)
    requires
        follows(polish, h),
        fitted(f, g, polish, s, bands, r),
    ensures
        r == fit_result(f, g, h, s, bands),
{
    law_gathered_sound(f, bands);
    if attempted(f, bands) {
        let observations = gathered(f, bands);
        let unit = flux_unit(observations);
        let lower = lower_bounds(f, observations);
        let upper = upper_bounds(observations);
        let obs = normalised(f, observations, unit);
        let n_obs = observation_count(bands) as usize;
        let n_bands = band_count(bands) as usize;
        let o = choose|o: Seq<(Seq<Real>, Real)>| #[trigger]
            all_restarted(f, g, polish, s, obs, lower, upper, o) && o.len() == N_RESTARTS && r
                == Some(concluded(f, o, lower, unit, n_obs, n_bands));
        let goal = restart_outcomes(f, g, h, s, obs, lower, upper);
        assert forall|k: int| 0 <= k < o.len() implies #[trigger] o[k] == goal[k] by {
            let start = restart_search(f, g, s, obs, lower, upper, k as nat);
            lemma_polished_follows(f, h, polish, obs, lower, upper, start, o[k]);
        }
        assert(o =~= goal);
    }
}

/// The best outcome is returned: where a fit reports a cost, that is the cost of the
/// parameters of a restart that no other restart undercuts, and the reported parameters
/// are those of that restart in physical units.
pub proof fn law_fit_reports_best<
    S,
    P: Fn(&ScaledSbplCost, &Vec<Real>) -> Option<Vec<Real>>,
>(f: Arith, g: Source<S>, polish: P, s: S, bands: Seq<Band>, out: SbplResult)
    requires
        fitted(f, g, polish, s, bands, Some(out)),
        out.reduced_chi2 is Some,
    ensures
        ({
            let observations = gathered(f, bands);
            let unit = flux_unit(observations);
            let log_unit = f(Op::Log10(unit));
            let lower = lower_bounds(f, observations);
            let upper = upper_bounds(observations);
            let obs = normalised(f, observations, unit);
            exists|outcomes: Seq<(Seq<Real>, Real)>, k: int|
                #![trigger all_restarted(f, g, polish, s, obs, lower, upper, outcomes), outcomes[k]]
                {
                    &&& all_restarted(f, g, polish, s, obs, lower, upper, outcomes)
                    &&& outcomes.len() == N_RESTARTS
                    &&& 0 <= k < outcomes.len()
                    &&& out.reduced_chi2 == Some(cost(f, obs, outcomes[k].0))
                    &&& forall|j: int|
                        0 <= j < outcomes.len() ==> !less(
                            cost(f, obs, (#[trigger] outcomes[j]).0),
                            cost(f, obs, outcomes[k].0),
                        )
                    &&& out == SbplResult::of(
                        physical(f, outcomes[k].0, log_unit),
                        spread(f, outcomes, log_unit),
                        cost(f, obs, outcomes[k].0),
                        out.n_obs,
                        out.n_bands,
                    )
                }
        }),
{
    let observations = gathered(f, bands);
    let unit = flux_unit(observations);
    let lower = lower_bounds(f, observations);
    let upper = upper_bounds(observations);
    let obs = normalised(f, observations, unit);
    let n_obs = observation_count(bands) as usize;
    let n_bands = band_count(bands) as usize;
    assert(attempted(f, bands));
    let o = choose|o: Seq<(Seq<Real>, Real)>| #[trigger]
        all_restarted(f, g, polish, s, obs, lower, upper, o) && o.len() == N_RESTARTS && Some(out)
            == Some(concluded(f, o, lower, unit, n_obs, n_bands));
    law_best_is_cheapest(lower, o);
    let k = choose|k: int|
        #![trigger o[k]]
        0 <= k < o.len() && best(lower, o) == o[k] && forall|j: int|
            0 <= j < k ==> !at_most((#[trigger] o[j]).1, o[k].1);
    law_outcomes_consistent(f, g, polish, s, obs, lower, upper, o, k);
    assert forall|j: int| 0 <= j < o.len() implies !less(
        cost(f, obs, (#[trigger] o[j]).0),
        cost(f, obs, o[k].0),
    ) by {
        law_outcomes_consistent(f, g, polish, s, obs, lower, upper, o, j);
    }
    assert(o[k].1 == cost(f, obs, o[k].0));
}

/// The cost of outcome `b` is undercut by none and, if others cost the same, the first.
pub open spec fn first_of_least(outcomes: Seq<(Seq<Real>, Real)>, b: int) -> bool {
    &&& 0 <= b < outcomes.len()
    &&& forall|j: int|
        0 <= j < outcomes.len() ==> !less((#[trigger] outcomes[j]).1, outcomes[b].1)
    &&& forall|j: int| 0 <= j < b ==> !at_most((#[trigger] outcomes[j]).1, outcomes[b].1)
}

proof fn lemma_restart_consistent<S>(
    f: Arith,
    g: Source<S>,
    s: S,
    observations: Seq<SbplObs>,
    lower: Seq<Real>,
    upper: Seq<Real>,
    k: nat,
)
    ensures
        ({
            let start = restart_search(f, g, s, observations, lower, upper, k);
            start.1 == cost(f, observations, start.0)
        }),
{
    let state = restart_state(f, g, s, lower, upper, k);
    let n = N_PARTICLES as nat;
    let (_, draws) = drawn_swarm(f, g, state, lower, upper, n, N_ITERS as nat);
    lemma_drawn_table_answers(g, state, position_requests(lower, upper), n);
    law_search_consistent(f, observations, lower, upper, draws, N_ITERS as nat);
}

/// Of the restarts, the first of least cost is reported, as long as one of them has a cost
/// below infinity: its cost, which is that of its parameters, its parameters in physical
/// units, and the spread of all.
pub proof fn law_fit_reports_first_of_least<S>(
    f: Arith,
    g: Source<S>,
    h: Solver,
    s: S,
    bands: Seq<Band>,
)
    requires
        attempted(f, bands),
        ({
            let observations = gathered(f, bands);
            let outcomes = restart_outcomes(
                f,
                g,
                h,
                s,
                normalised(f, observations, flux_unit(observations)),
                lower_bounds(f, observations),
                upper_bounds(observations),
            );
            exists|k: int|
                0 <= k < outcomes.len() && less((#[trigger] outcomes[k]).1, INFINITY)
        }),
    ensures
        ({
            let observations = gathered(f, bands);
            let unit = flux_unit(observations);
            let log_unit = f(Op::Log10(unit));
            let obs = normalised(f, observations, unit);
            let outcomes = restart_outcomes(
                f,
                g,
                h,
                s,
                obs,
                lower_bounds(f, observations),
                upper_bounds(observations),
            );
            exists|b: int| #[trigger]
                first_of_least(outcomes, b) && outcomes[b].1 == cost(f, obs, outcomes[b].0)
                    && fit_result(f, g, h, s, bands) == Some(
                    SbplResult::of(
                        physical(f, outcomes[b].0, log_unit),
                        spread(f, outcomes, log_unit),
                        outcomes[b].1,
                        observation_count(bands) as usize,
                        band_count(bands) as usize,
                    ),
                )
        }),
{
    law_gathered_sound(f, bands);
    let observations = gathered(f, bands);
    let obs = normalised(f, observations, flux_unit(observations));
    let lower = lower_bounds(f, observations);
    let upper = upper_bounds(observations);
    let outcomes = restart_outcomes(f, g, h, s, obs, lower, upper);
    law_best_is_cheapest(lower, outcomes);
    let k = choose|k: int| 0 <= k < outcomes.len() && less((#[trigger] outcomes[k]).1, INFINITY);
    assert(!less(outcomes[k].1, best(lower, outcomes).1));
    let b = choose|b: int|
        #![trigger outcomes[b]]
        0 <= b < outcomes.len() && best(lower, outcomes) == outcomes[b] && forall|j: int|
            0 <= j < b ==> !at_most((#[trigger] outcomes[j]).1, outcomes[b].1);
    lemma_restart_consistent(f, g, s, obs, lower, upper, b as nat);
    assert(first_of_least(outcomes, b));
}

/// Where the solver ends has no coordinates or those of the start.
pub open spec fn keeps_shape(h: Solver) -> bool {
    forall|o: Seq<SbplObs>, lower: Seq<Real>, scale: Seq<Real>, xs: Seq<Real>|
        whole_or_empty(#[trigger] h(o, lower, scale, xs), xs.len())
}

/// Every outcome and the best of them have as many coordinates as there are bounds.
pub proof fn lemma_outcomes_shape<S>(
    f: Arith,
    g: Source<S>,
    h: Solver,
    s: S,
    observations: Seq<SbplObs>,
    lower: Seq<Real>,
    upper: Seq<Real>,
)
    requires
        keeps_shape(h),
        lower.len() <= upper.len(),
    ensures
        ({
            let outcomes = restart_outcomes(f, g, h, s, observations, lower, upper);
            &&& forall|j: int|
                0 <= j < outcomes.len() ==> (#[trigger] outcomes[j]).0.len() == lower.len()
            &&& best(lower, outcomes).0.len() == lower.len()
        }),
{
    let outcomes = restart_outcomes(f, g, h, s, observations, lower, upper);
    assert forall|j: int| 0 <= j < outcomes.len() implies (#[trigger] outcomes[j]).0.len()
        == lower.len() by {
        let state = restart_state(f, g, s, lower, upper, j as nat);
        lemma_found_shape(
            f,
            g,
            state,
            observations,
            lower,
            upper,
            N_PARTICLES as nat,
            N_ITERS as nat,
        );
        let start = restart_search(f, g, s, observations, lower, upper, j as nat);
        let scale = spans(f, lower, upper);
        let end = h(observations, lower, scale, scaled(f, lower, scale, start.0));
        assert(scaled(f, lower, scale, start.0).len() == lower.len());
    }
    lemma_best_shape(lower, outcomes);
}

proof fn lemma_best_shape(fallback: Seq<Real>, outcomes: Seq<(Seq<Real>, Real)>)
    requires
        forall|j: int|
            0 <= j < outcomes.len() ==> (#[trigger] outcomes[j]).0.len() == fallback.len(),
    ensures
        best(fallback, outcomes).0.len() == fallback.len(),
    decreases outcomes.len(),
{
    if outcomes.len() > 0 {
        let before = outcomes.drop_last();
        assert forall|j: int| 0 <= j < before.len() implies (#[trigger] before[j]).0.len()
            == fallback.len() by {
            assert(before[j] == outcomes[j]);
        }
        lemma_best_shape(fallback, before);
        assert(outcomes[outcomes.len() - 1].0.len() == fallback.len());
    }
}

/// `x` is a number from the lower to the upper bound, or from the parameter at coordinate
/// zero to that at coordinate one.
pub open spec fn reachable(f: Arith, lo: Real, x: Real, hi: Real) -> bool {
    between(lo, x, hi) || between(foot(f, lo, hi), x, head(f, lo, hi))
}

/// A reported value is within reach between the bounds.
pub open spec fn reachable_if_any(f: Arith, lo: Real, v: Option<Real>, hi: Real) -> bool {
    v matches Some(x) ==> reachable(f, lo, x, hi)
}

proof fn lemma_outcome_reachable<S>(
    f: Arith,
    g: Source<S>,
    h: Solver,
    s: S,
    observations: Seq<SbplObs>,
    lower: Seq<Real>,
    upper: Seq<Real>,
    k: int,
    d: int,
)
    requires
        keeps_ranges(g),
        keeps_shape(h),
        drawable(f, lower, upper),
        rounds_monotonically(f),
        subtracts_in_order(f),
        propagates_nan(f),
        lower.len() <= upper.len(),
        0 <= k < N_RESTARTS,
        0 <= d < lower.len(),
    ensures
        ({
            let x = restart_outcomes(f, g, h, s, observations, lower, upper)[k].0[d];
            !nan(x) ==> reachable(f, lower[d], x, upper[d])
        }),
{
    lemma_drawable_ordered(f, lower, upper);
    assert(drawable_along(f, lower, upper, d));
    assert(less(lower[d], upper[d]));
    let n = N_PARTICLES as nat;
    let state = restart_state(f, g, s, lower, upper, k as nat);
    law_found_inside(f, g, state, observations, lower, upper, n, N_ITERS as nat);
    let start = restart_search(f, g, s, observations, lower, upper, k as nat);
    let scale = spans(f, lower, upper);
    let end = h(observations, lower, scale, scaled(f, lower, scale, start.0));
    law_refined_between(f, observations, lower, upper, start.0, start.1, end, d);
    assert(!less(start.0[d], lower[d]) && !less(upper[d], start.0[d]));
}

/// Reported parameters are within reach between their bounds, each for itself. A reported
/// amplitude is the conversion of one that is within reach, with the reported spectral
/// index.
pub proof fn law_reported_within_reach<S>(
    f: Arith,
    g: Source<S>,
    h: Solver,
    s: S,
    bands: Seq<Band>,
    out: SbplResult,
)
    requires
        keeps_ranges(g),
        keeps_shape(h),
        searchable(f, bands),
        rounds_monotonically(f),
        subtracts_in_order(f),
        propagates_nan(f),
        fit_result(f, g, h, s, bands) == Some(out),
    ensures
        ({
            let lower = lower_bounds(f, gathered(f, bands));
            let upper = upper_bounds(gathered(f, bands));
            &&& reachable_if_any(f, lower[0], out.alpha1, upper[0])
            &&& reachable_if_any(f, lower[1], out.alpha2, upper[1])
            &&& reachable_if_any(f, lower[2], out.beta, upper[2])
            &&& reachable_if_any(f, lower[3], out.logd, upper[3])
            &&& reachable_if_any(f, lower[5], out.tb, upper[5])
            &&& reachable_if_any(f, lower[6], out.t0, upper[6])
        }),
        out.loga is Some ==> exists|x: Real, beta: Real|
            {
                &&& out.loga == Some(
                    #[trigger] converted(
                        f,
                        x,
                        beta,
                        f(Op::Log10(flux_unit(gathered(f, bands)))),
                    ),
                )
                &&& out.beta == reported(beta)
                &&& reachable(f, MINUS_TEN, x, TEN)
                &&& reachable(f, MINUS_FIVE, beta, FIVE)
            },
{
    law_gathered_sound(f, bands);
    if attempted(f, bands) {
        let observations = gathered(f, bands);
        let unit = flux_unit(observations);
        let obs = normalised(f, observations, unit);
        let lower = lower_bounds(f, observations);
        let upper = upper_bounds(observations);
        let outcomes = restart_outcomes(f, g, h, s, obs, lower, upper);
        lemma_drawable_ordered(f, lower, upper);
        law_best_is_cheapest(lower, outcomes);
        let p = best(lower, outcomes).0;
        assert forall|d: int| 0 <= d < N_PARAMS && !nan(#[trigger] p[d]) implies reachable(
            f,
            lower[d],
            p[d],
            upper[d],
        ) by {
            assert(less(lower[d], upper[d]));
            if best(lower, outcomes) != (lower, INFINITY) {
                let k = choose|k: int|
                    #![trigger outcomes[k]]
                    0 <= k < outcomes.len() && best(lower, outcomes) == outcomes[k] && forall|j: int|
                        0 <= j < k ==> !at_most((#[trigger] outcomes[j]).1, outcomes[k].1);
                lemma_outcome_reachable(f, g, h, s, obs, lower, upper, k, d);
            }
        }
        let log_unit = f(Op::Log10(unit));
        lemma_outcomes_shape(f, g, h, s, obs, lower, upper);
        assert(p.len() == N_PARAMS);
        if out.loga is Some {
            let x = converted(f, p[LOGA as int], p[BETA as int], log_unit);
            assert(out.loga == reported(x));
            assert(!nan(p[LOGA as int]) && !nan(p[BETA as int]));
        }
    }
}

} // verus!
