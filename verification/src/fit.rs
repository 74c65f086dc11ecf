//! The fit: several restarts of global search and local refinement, the best of which is
//! reported with the spread of all.

use rand::rngs::SmallRng;
use vstd::prelude::*;

use crate::arith::{apply, implements, total, Arith, Op};
use crate::bands::{distinct, in_name_order, Band};
use crate::cost::{SbplCost, SbplObs, ScaledSbplCost, N_PARAMS};
use crate::observe::{
    band_count, complete, earliest, find_flux_unit, flux_unit, gather, gathered, latest,
    law_counts_order_free, normalise, normalised, observation_count, Gathered,
};
use crate::refine::{follows, lbfgs_refine, polished, refinement, solves, Solver};
use crate::result::{reported, SbplResult};
use crate::rng::{seed_generator, seeded};
use crate::swarm::{
    answers_all, drawable, drawn_swarm, found, generates, is_drawable, pso_search, Draw, Source,
};
use crate::word::{
    at_most, is_finite, le, less, lt, Real, FIFTEEN, FIVE, HUNDRED, HUNDREDTH, INFINITY,
    MINUS_FIVE, MINUS_TEN, MINUS_THREE, TEN, ZERO,
};

verus! {

/// How often the search is started anew.
pub const N_RESTARTS: usize = 3;

/// How many particles search.
pub const N_PARTICLES: usize = 30;

/// How many rounds they search for.
pub const N_ITERS: usize = 200;

/// What the random source of a fit is seeded with.
pub const SEED: u64 = 1234;

/// How many usable observations a fit needs.
pub const MIN_OBSERVATIONS: usize = 7;

/// How many bands a fit needs.
pub const MIN_BANDS: usize = 2;

/// The index of the spectral index in a parameter vector.
pub const BETA: usize = 2;

/// The index of the logarithmic amplitude in a parameter vector.
pub const LOGA: usize = 4;

/// The time that the observations span.
pub open spec fn duration(f: Arith, observations: Seq<SbplObs>) -> Real {
    f(Op::Sub(latest(observations), earliest(observations)))
}

/// The lower bounds of the parameters.
pub open spec fn lower_bounds(f: Arith, observations: Seq<SbplObs>) -> Seq<Real> {
    seq![
        MINUS_TEN,
        MINUS_TEN,
        MINUS_FIVE,
        MINUS_THREE,
        MINUS_TEN,
        f(
            Op::Add(
                earliest(observations),
                f(Op::Mul(HUNDREDTH, duration(f, observations))),
            ),
        ),
        f(Op::Sub(earliest(observations), HUNDRED)),
    ]
}

/// The upper bounds of the parameters.
pub open spec fn upper_bounds(observations: Seq<SbplObs>) -> Seq<Real> {
    seq![TEN, TEN, FIVE, ZERO, TEN, latest(observations), latest(observations)]
}

/// There are observations and bands enough, and they span some time.
pub open spec fn attempted(f: Arith, bands: Seq<Band>) -> bool {
    &&& observation_count(bands) >= MIN_OBSERVATIONS
    &&& band_count(bands) >= MIN_BANDS
    &&& !at_most(duration(f, gathered(f, bands)), ZERO)
}

/// Where a fit is attempted, what its searches ask for can be drawn.
pub open spec fn searchable(f: Arith, bands: Seq<Band>) -> bool {
    attempted(f, bands) ==> drawable(
        f,
        lower_bounds(f, gathered(f, bands)),
        upper_bounds(gathered(f, bands)),
    )
}

/// The state of the source before restart `k`.
pub open spec fn restart_state<S>(
    f: Arith,
    g: Source<S>,
    s: S,
    lower: Seq<Real>,
    upper: Seq<Real>,
    k: nat,
) -> S
    decreases k,
{
    if k == 0 {
        s
    } else {
        drawn_swarm(
            f,
            g,
            restart_state(f, g, s, lower, upper, (k - 1) as nat),
            lower,
            upper,
            N_PARTICLES as nat,
            N_ITERS as nat,
        ).0
    }
}

/// What the search of restart `k` finds.
pub open spec fn restart_search<S>(
    f: Arith,
    g: Source<S>,
    s: S,
    observations: Seq<SbplObs>,
    lower: Seq<Real>,
    upper: Seq<Real>,
    k: nat,
) -> (Seq<Real>, Real) {
    let (_, params, cost) = found(
        f,
        g,
        restart_state(f, g, s, lower, upper, k),
        observations,
        lower,
        upper,
        N_PARTICLES as nat,
        N_ITERS as nat,
    );
    (params, cost)
}

/// Each outcome is what refinement makes of what the search of its restart finds.
pub open spec fn all_restarted<S, P: Fn(&ScaledSbplCost, &Vec<Real>) -> Option<Vec<Real>>>(
    f: Arith,
    g: Source<S>,
    polish: P,
    s: S,
    observations: Seq<SbplObs>,
    lower: Seq<Real>,
    upper: Seq<Real>,
    outcomes: Seq<(Seq<Real>, Real)>,
) -> bool {
    forall|k: int|
        0 <= k < outcomes.len() ==> polished(
            f,
            polish,
            observations,
            lower,
            upper,
            restart_search(f, g, s, observations, lower, upper, k as nat),
            #[trigger] outcomes[k],
        )
}

/// The first of the cheapest outcomes, or `fallback` at infinite cost where none is
/// cheaper than that.
pub open spec fn best(fallback: Seq<Real>, outcomes: Seq<(Seq<Real>, Real)>) -> (Seq<Real>, Real)
    decreases outcomes.len(),
{
    if outcomes.len() == 0 {
        (fallback, INFINITY)
    } else {
        let before = best(fallback, outcomes.drop_last());
        if less(outcomes.last().1, before.1) {
            outcomes.last()
        } else {
            before
        }
    }
}

/// The logarithmic amplitude `loga` in physical units: fluxes are no longer divided by the
/// unit with logarithm `log_unit`, nor frequencies by 10^15.
pub open spec fn converted(f: Arith, loga: Real, beta: Real, log_unit: Real) -> Real {
    f(Op::Sub(f(Op::Add(loga, log_unit)), f(Op::Mul(FIFTEEN, beta))))
}

/// The parameters with the amplitude in physical units.
pub open spec fn physical(f: Arith, p: Seq<Real>, log_unit: Real) -> Seq<Real> {
    p.update(LOGA as int, converted(f, p[LOGA as int], p[BETA as int], log_unit))
}

/// The terms added up, first to last.
pub open spec fn sum(f: Arith, terms: Seq<Real>) -> Real
    decreases terms.len(),
{
    if terms.len() == 0 {
        ZERO
    } else {
        f(Op::Add(sum(f, terms.drop_last()), terms.last()))
    }
}

/// The mean.
pub open spec fn mean(f: Arith, xs: Seq<Real>) -> Real {
    f(Op::Div(sum(f, xs), f(Op::Count(xs.len() as usize))))
}

/// The squared distances from `centre`.
pub open spec fn squares(f: Arith, xs: Seq<Real>, centre: Real) -> Seq<Real> {
    Seq::new(xs.len(), |k: int| f(Op::Square(f(Op::Sub(xs[k], centre)))))
}

/// The standard deviation: the root of the mean squared distance from the mean.
pub open spec fn deviation(f: Arith, xs: Seq<Real>) -> Real {
    f(Op::Sqrt(mean(f, squares(f, xs, mean(f, xs)))))
}

/// Parameter `i` of every outcome, in physical units.
pub open spec fn column(
    f: Arith,
    outcomes: Seq<(Seq<Real>, Real)>,
    log_unit: Real,
    i: int,
) -> Seq<Real> {
    Seq::new(outcomes.len(), |k: int| physical(f, outcomes[k].0, log_unit)[i])
}

/// The standard deviation of each parameter across the outcomes.
pub open spec fn spread(f: Arith, outcomes: Seq<(Seq<Real>, Real)>, log_unit: Real) -> Seq<Real> {
    Seq::new(N_PARAMS as nat, |i: int| deviation(f, column(f, outcomes, log_unit, i)))
}

/// What is reported of the outcomes.
pub open spec fn concluded(
    f: Arith,
    outcomes: Seq<(Seq<Real>, Real)>,
    fallback: Seq<Real>,
    unit: Real,
    n_obs: usize,
    n_bands: usize,
) -> SbplResult {
    let log_unit = f(Op::Log10(unit));
    let (params, cost) = best(fallback, outcomes);
    if outcomes.len() == 0 {
        SbplResult::nothing(n_obs, n_bands)
    } else {
        SbplResult::of(
            physical(f, params, log_unit),
            spread(f, outcomes, log_unit),
            cost,
            n_obs,
            n_bands,
        )
    }
}

/// `r` is a result of the fit to the bands: none with too few observations, one without
/// parameters where the fit is not attempted, and else the conclusion from restarts on
/// the normalised observations, the first of them with the source in state `s`.
pub open spec fn fitted<S, P: Fn(&ScaledSbplCost, &Vec<Real>) -> Option<Vec<Real>>>(
    f: Arith,
    g: Source<S>,
    polish: P,
    s: S,
    bands: Seq<Band>,
    r: Option<SbplResult>,
) -> bool {
    let n_obs = observation_count(bands) as usize;
    let n_bands = band_count(bands) as usize;
    let observations = gathered(f, bands);
    let unit = flux_unit(observations);
    let lower = lower_bounds(f, observations);
    if observation_count(bands) < MIN_OBSERVATIONS {
        r is None
    } else if !attempted(f, bands) {
        r == Some(SbplResult::nothing(n_obs, n_bands))
    } else {
        exists|outcomes: Seq<(Seq<Real>, Real)>| #[trigger]
            all_restarted(
                f,
                g,
                polish,
                s,
                normalised(f, observations, unit),
                lower,
                upper_bounds(observations),
                outcomes,
            ) && outcomes.len() == N_RESTARTS && r == Some(
                concluded(f, outcomes, lower, unit, n_obs, n_bands),
            )
    }
}

/// The outcomes of the restarts with a solver that ends where `h` says.
pub open spec fn restart_outcomes<S>(
    f: Arith,
    g: Source<S>,
    h: Solver,
    s: S,
    observations: Seq<SbplObs>,
    lower: Seq<Real>,
    upper: Seq<Real>,
) -> Seq<(Seq<Real>, Real)> {
    Seq::new(
        N_RESTARTS as nat,
        |k: int|
            refinement(
                f,
                h,
                observations,
                lower,
                upper,
                restart_search(f, g, s, observations, lower, upper, k as nat),
            ),
    )
}

/// The result of the fit to given observations, and the counts to report with it.
pub open spec fn fit_of<S>(
    f: Arith,
    g: Source<S>,
    h: Solver,
    s: S,
    observations: Seq<SbplObs>,
    n_bands: nat,
) -> Option<SbplResult> {
    let n_obs = observations.len();
    let unit = flux_unit(observations);
    let lower = lower_bounds(f, observations);
    if n_obs < MIN_OBSERVATIONS {
        None
    } else if n_bands < MIN_BANDS || at_most(duration(f, observations), ZERO) {
        Some(SbplResult::nothing(n_obs as usize, n_bands as usize))
    } else {
        Some(
            concluded(
                f,
                restart_outcomes(
                    f,
                    g,
                    h,
                    s,
                    normalised(f, observations, unit),
                    lower,
                    upper_bounds(observations),
                ),
                lower,
                unit,
                n_obs as usize,
                n_bands as usize,
            ),
        )
    }
}

/// The result of the fit to the bands with a solver that ends where `h` says.
pub open spec fn fit_result<S>(
    f: Arith,
    g: Source<S>,
    h: Solver,
    s: S,
    bands: Seq<Band>,
) -> Option<SbplResult> {
    fit_of(f, g, h, s, gathered(f, bands), band_count(bands))
}

/// Parameter vectors with their costs, as mathematical sequences.
pub open spec fn views(runs: Seq<(Vec<Real>, Real)>) -> Seq<(Seq<Real>, Real)> {
    Seq::new(runs.len(), |k: int| (runs[k].0@, runs[k].1))
}

/// Every parameter vector is whole.
pub open spec fn whole(runs: Seq<(Vec<Real>, Real)>) -> bool {
    forall|k: int| 0 <= k < runs.len() ==> (#[trigger] runs[k]).0@.len() >= N_PARAMS
}

/// The bounds of the parameters for observations between `t_min` and `t_max`.
fn bounds<A: Fn(Op) -> Real>(g: &Gathered, duration: Real, alu: &A) -> (r: (Vec<Real>, Vec<Real>))
    requires
        total(*alu),
        g.t_min == earliest(g.observations@),
        g.t_max == latest(g.observations@),
    ensures
        r.0.len() == N_PARAMS,
        r.1@ == upper_bounds(g.observations@),
        forall|f: Arith| #[trigger]
            implements(*alu, f) && duration == self::duration(f, g.observations@) ==> r.0@
                == lower_bounds(f, g.observations@),
{
    let margin: Real = apply(alu, Op::Mul(HUNDREDTH, duration));
    let first_break: Real = apply(alu, Op::Add(g.t_min, margin));
    let first_start: Real = apply(alu, Op::Sub(g.t_min, HUNDRED));
    let lower: Vec<Real> = vec![
        MINUS_TEN,
        MINUS_TEN,
        MINUS_FIVE,
        MINUS_THREE,
        MINUS_TEN,
        first_break,
        first_start,
    ];
    let upper: Vec<Real> = vec![TEN, TEN, FIVE, ZERO, TEN, g.t_max, g.t_max];
    (lower, upper)
}

/// A finite value, or nothing.
fn finite_or_none(v: Real) -> (r: Option<Real>)
    ensures
        r == reported(v),
{
    if is_finite(v) {
        Some(v)
    } else {
        None
    }
}

/// Adds up terms.
fn add_up<A: Fn(Op) -> Real>(terms: &Vec<Real>, alu: &A) -> (r: Real)
    requires
        total(*alu),
    ensures
        forall|f: Arith| #[trigger] implements(*alu, f) ==> r == sum(f, terms@),
{
    let n: usize = terms.len();
    let mut r: Real = ZERO;
    let mut k: usize = 0;
    while k < n
        invariant
            total(*alu),
            n == terms.len(),
            k <= n,
            forall|f: Arith| #[trigger] implements(*alu, f) ==> r == sum(f, terms@.take(k as int)),
        decreases n - k,
    {
        r = apply(alu, Op::Add(r, terms[k]));
        assert(terms@.take(k + 1).drop_last() == terms@.take(k as int));
        k = k + 1;
    }
    assert(terms@.take(n as int) == terms@);
    r
}

/// The mean of some numbers.
fn find_mean<A: Fn(Op) -> Real>(xs: &Vec<Real>, alu: &A) -> (r: Real)
    requires
        total(*alu),
    ensures
        forall|f: Arith| #[trigger] implements(*alu, f) ==> r == mean(f, xs@),
{
    let total_of_all: Real = add_up(xs, alu);
    let count: Real = apply(alu, Op::Count(xs.len()));
    apply(alu, Op::Div(total_of_all, count))
}

/// The standard deviation of some numbers.
pub fn standard_deviation<A: Fn(Op) -> Real>(xs: &Vec<Real>, alu: &A) -> (r: Real)
    requires
        total(*alu),
    ensures
        forall|f: Arith| #[trigger] implements(*alu, f) ==> r == deviation(f, xs@),
{
    let centre: Real = find_mean(xs, alu);
    let n: usize = xs.len();
    let mut terms: Vec<Real> = Vec::new();
    let mut k: usize = 0;
    while k < n
        invariant
            total(*alu),
            n == xs.len(),
            k <= n,
            terms.len() == k,
            forall|f: Arith| #[trigger]
                implements(*alu, f) ==> forall|j: int|
                    0 <= j < k ==> #[trigger] terms@[j] == squares(f, xs@, centre)[j],
        decreases n - k,
    {
        let distance: Real = apply(alu, Op::Sub(xs[k], centre));
        let square: Real = apply(alu, Op::Square(distance));
        terms.push(square);
        k = k + 1;
    }
    assert forall|f: Arith| #[trigger] implements(*alu, f) implies terms@ == squares(
        f,
        xs@,
        centre,
    ) by {}
    let variance: Real = find_mean(&terms, alu);
    apply(alu, Op::Sqrt(variance))
}

/// Converts the amplitude of fitted parameters to physical units.
pub fn to_physical<A: Fn(Op) -> Real>(p: &Vec<Real>, log_unit: Real, alu: &A) -> (r: Vec<Real>)
    requires
        total(*alu),
        p.len() >= N_PARAMS,
    ensures
        r.len() == p.len(),
        forall|f: Arith| #[trigger] implements(*alu, f) ==> r@ == physical(f, p@, log_unit),
{
    let mut r: Vec<Real> = p.clone();
    assert(r@ == p@);
    let raised: Real = apply(alu, Op::Add(p[LOGA], log_unit));
    let colour: Real = apply(alu, Op::Mul(FIFTEEN, p[BETA]));
    r[LOGA] = apply(alu, Op::Sub(raised, colour));
    r
}

/// Picks the best outcome.
pub fn pick_best(fallback: &Vec<Real>, runs: &Vec<(Vec<Real>, Real)>) -> (r: (Vec<Real>, Real))
    ensures
        (r.0@, r.1) == best(fallback@, views(runs@)),
{
    let n: usize = runs.len();
    let mut best_cost: Real = INFINITY;
    let mut best_params: Vec<Real> = fallback.clone();
    assert(best_params@ == fallback@);
    let mut k: usize = 0;
    while k < n
        invariant
            n == runs.len(),
            k <= n,
            (best_params@, best_cost) == best(fallback@, views(runs@).take(k as int)),
        decreases n - k,
    {
        if lt(runs[k].1, best_cost) {
            best_cost = runs[k].1;
            best_params = runs[k].0.clone();
            assert(best_params@ == runs@[k as int].0@);
        }
        assert(views(runs@).take(k + 1).drop_last() == views(runs@).take(k as int));
        k = k + 1;
    }
    assert(views(runs@).take(n as int) == views(runs@));
    (best_params, best_cost)
}

/// Reports the best of the outcomes of restarts, with the spread of all of them.
pub fn conclude<A: Fn(Op) -> Real>(
    runs: &Vec<(Vec<Real>, Real)>,
    fallback: &Vec<Real>,
    unit: Real,
    n_obs: usize,
    n_bands: usize,
    alu: &A,
) -> (r: SbplResult)
    requires
        total(*alu),
        fallback.len() >= N_PARAMS,
        whole(runs@),
    ensures
        r.n_obs == n_obs,
        r.n_bands == n_bands,
        r.all_finite(),
        forall|f: Arith| #[trigger]
            implements(*alu, f) ==> r == concluded(
                f,
                views(runs@),
                fallback@,
                unit,
                n_obs,
                n_bands,
            ),
{
    let n: usize = runs.len();
    if n == 0 {
        return SbplResult::empty(n_obs, n_bands);
    }
    let log_unit: Real = apply(alu, Op::Log10(unit));
    let ghost outcomes = views(runs@);
    let mut all_params: Vec<Vec<Real>> = Vec::new();
    let mut k: usize = 0;
    while k < n
        invariant
            total(*alu),
            n == runs.len(),
            outcomes == views(runs@),
            whole(runs@),
            k <= n,
            all_params.len() == k,
            forall|j: int| 0 <= j < k ==> (#[trigger] all_params@[j])@.len() >= N_PARAMS,
            forall|f: Arith| #[trigger]
                implements(*alu, f) ==> forall|j: int|
                    0 <= j < k ==> (#[trigger] all_params@[j])@ == physical(
                        f,
                        outcomes[j].0,
                        log_unit,
                    ),
        decreases n - k,
    {
        let p: Vec<Real> = to_physical(&runs[k].0, log_unit, alu);
        all_params.push(p);
        k = k + 1;
    }
    let mut stds: Vec<Real> = Vec::new();
    let mut i: usize = 0;
    while i < N_PARAMS
        invariant
            total(*alu),
            n == outcomes.len(),
            n == all_params.len(),
            forall|j: int| 0 <= j < n ==> (#[trigger] all_params@[j])@.len() >= N_PARAMS,
            forall|f: Arith| #[trigger]
                implements(*alu, f) ==> forall|j: int|
                    0 <= j < n ==> (#[trigger] all_params@[j])@ == physical(
                        f,
                        outcomes[j].0,
                        log_unit,
                    ),
            i <= N_PARAMS,
            stds.len() == i,
            forall|f: Arith| #[trigger]
                implements(*alu, f) ==> forall|j: int|
                    0 <= j < i ==> #[trigger] stds@[j] == spread(f, outcomes, log_unit)[j],
        decreases N_PARAMS - i,
    {
        let mut xs: Vec<Real> = Vec::new();
        let mut k: usize = 0;
        while k < n
            invariant
                n == all_params.len(),
                forall|j: int| 0 <= j < n ==> (#[trigger] all_params@[j])@.len() >= N_PARAMS,
                i < N_PARAMS,
                k <= n,
                xs.len() == k,
                forall|j: int| 0 <= j < k ==> #[trigger] xs@[j] == all_params@[j]@[i as int],
            decreases n - k,
        {
            xs.push(all_params[k][i]);
            k = k + 1;
        }
        let std: Real = standard_deviation(&xs, alu);
        assert forall|f: Arith| #[trigger] implements(*alu, f) implies std == spread(
            f,
            outcomes,
            log_unit,
        )[i as int] by {
            assert(xs@ =~= column(f, outcomes, log_unit, i as int));
        }
        stds.push(std);
        i = i + 1;
    }
    let (fit_params, best_cost) = pick_best(fallback, runs);
    proof {
        lemma_best_whole(fallback@, runs@);
    }
    let best_params: Vec<Real> = to_physical(&fit_params, log_unit, alu);
    assert forall|f: Arith| #[trigger] implements(*alu, f) implies stds@ == spread(
        f,
        outcomes,
        log_unit,
    ) by {}
    SbplResult {
        alpha1: finite_or_none(best_params[0]),
        alpha2: finite_or_none(best_params[1]),
        beta: finite_or_none(best_params[2]),
        logd: finite_or_none(best_params[3]),
        loga: finite_or_none(best_params[4]),
        tb: finite_or_none(best_params[5]),
        t0: finite_or_none(best_params[6]),
        alpha1_err: finite_or_none(stds[0]),
        alpha2_err: finite_or_none(stds[1]),
        beta_err: finite_or_none(stds[2]),
        logd_err: finite_or_none(stds[3]),
        loga_err: finite_or_none(stds[4]),
        tb_err: finite_or_none(stds[5]),
        t0_err: finite_or_none(stds[6]),
        reduced_chi2: finite_or_none(best_cost),
        n_obs,
        n_bands,
    }
}

/// The best of whole vectors is whole.
proof fn lemma_best_whole(fallback: Seq<Real>, runs: Seq<(Vec<Real>, Real)>)
    requires
        fallback.len() >= N_PARAMS,
        whole(runs),
    ensures
        best(fallback, views(runs)).0.len() >= N_PARAMS,
    decreases runs.len(),
{
    if runs.len() > 0 {
        assert(views(runs).drop_last() == views(runs.drop_last()));
        lemma_best_whole(fallback, runs.drop_last());
    }
}

/// Whether what the searches of a fit to the bands ask for can be drawn.
pub fn is_searchable<A: Fn(Op) -> Real>(bands: &Vec<Band>, alu: &A) -> (r: bool)
    requires
        total(*alu),
        distinct(bands@),
        complete(bands@),
    ensures
        forall|f: Arith| #[trigger]
            implements(*alu, f) ==> r == searchable(f, in_name_order(bands@)),
{
    proof {
        law_counts_order_free(bands@);
    }
    let g: Gathered = gather(bands, alu);
    let duration: Real = apply(alu, Op::Sub(g.t_max, g.t_min));
    if g.observations.len() < MIN_OBSERVATIONS || g.n_bands < MIN_BANDS || le(duration, ZERO) {
        return true;
    }
    let (lower, upper): (Vec<Real>, Vec<Real>) = bounds(&g, duration, alu);
    is_drawable(&lower, &upper, alu)
}

/// Fits the power law to the bands, with a random source that starts in the state `rng`.
///
/// The bands hold linear fluxes. Bands without a known effective frequency are skipped.
/// Random numbers come from `draw`, and `polish` is the local solver. Returns nothing if
/// there are fewer than seven usable observations.
pub fn fit_from<
    S,
    D: Fn(S, Draw) -> (S, Real),
    P: Fn(&ScaledSbplCost, &Vec<Real>) -> Option<Vec<Real>>,
    A: Fn(Op) -> Real,
>(bands: &Vec<Band>, rng: S, draw: &D, polish: &P, alu: &A) -> (r: Option<SbplResult>)
    requires
        total(*alu),
        solves(*polish),
        distinct(bands@),
        complete(bands@),
        exists|f: Arith| #[trigger] implements(*alu, f),
        forall|f: Arith| #[trigger]
            implements(*alu, f) ==> answers_all(*draw, f) && searchable(
                f,
                in_name_order(bands@),
            ),
    ensures
        r is None <==> observation_count(bands@) < MIN_OBSERVATIONS,
        r matches Some(out) ==> {
            &&& out.n_obs == observation_count(bands@)
            &&& out.n_bands == band_count(bands@)
            &&& out.all_finite()
            &&& out.n_bands < MIN_BANDS ==> out == SbplResult::nothing(out.n_obs, out.n_bands)
        },
        forall|f: Arith, g: Source<S>|
            #![trigger implements(*alu, f), generates(*draw, g)]
            implements(*alu, f) && generates(*draw, g) ==> fitted(
                f,
                g,
                *polish,
                rng,
                in_name_order(bands@),
                r,
            ),
        forall|f: Arith, g: Source<S>, h: Solver|
            #![trigger implements(*alu, f), generates(*draw, g), follows(*polish, h)]
            implements(*alu, f) && generates(*draw, g) && follows(*polish, h) ==> r == fit_result(
                f,
                g,
                h,
                rng,
                in_name_order(bands@),
            ),
{
    let ghost s = in_name_order(bands@);
    let ghost start = rng;
    proof {
        law_counts_order_free(bands@);
    }
    let g: Gathered = gather(bands, alu);
    let n_obs: usize = g.observations.len();
    let n_bands: usize = g.n_bands;
    if n_obs < MIN_OBSERVATIONS {
        return None;
    }
    if n_bands < MIN_BANDS {
        return Some(SbplResult::empty(n_obs, n_bands));
    }
    let duration: Real = apply(alu, Op::Sub(g.t_max, g.t_min));
    if le(duration, ZERO) {
        return Some(SbplResult::empty(n_obs, n_bands));
    }
    let unit: Real = find_flux_unit(&g.observations);
    let observations: Vec<SbplObs> = normalise(&g.observations, unit, alu);
    let (lower, upper): (Vec<Real>, Vec<Real>) = bounds(&g, duration, alu);
    assert forall|f: Arith| #[trigger] implements(*alu, f) implies drawable(f, lower@, upper@) by {
        assert(searchable(f, s));
    }
    let problem = SbplCost { observations };
    let ghost obs = problem.observations@;
    let mut state: S = rng;
    let mut runs: Vec<(Vec<Real>, Real)> = Vec::new();
    let mut k: usize = 0;
    while k < N_RESTARTS
        invariant
            total(*alu),
            exists|f: Arith| #[trigger] implements(*alu, f),
            forall|f: Arith| #[trigger]
                implements(*alu, f) ==> answers_all(*draw, f) && drawable(f, lower@, upper@),
            solves(*polish),
            obs == problem.observations@,
            lower.len() == N_PARAMS,
            upper.len() == N_PARAMS,
            k <= N_RESTARTS,
            runs.len() == k,
            whole(runs@),
            forall|f: Arith, g: Source<S>|
                #![trigger implements(*alu, f), generates(*draw, g)]
                implements(*alu, f) && generates(*draw, g) ==> state == restart_state(
                    f,
                    g,
                    start,
                    lower@,
                    upper@,
                    k as nat,
                ) && all_restarted(f, g, *polish, start, obs, lower@, upper@, views(runs@)),
            forall|f: Arith, g: Source<S>, h: Solver|
                #![trigger implements(*alu, f), generates(*draw, g), follows(*polish, h)]
                implements(*alu, f) && generates(*draw, g) && follows(*polish, h) ==> views(runs@)
                    == restart_outcomes(f, g, h, start, obs, lower@, upper@).take(k as int),
        decreases N_RESTARTS - k,
    {
        let (next, found_params, found_cost): (S, Vec<Real>, Real) = pso_search(
            &problem,
            &lower,
            &upper,
            N_PARTICLES,
            N_ITERS,
            state,
            draw,
            alu,
        );
        state = next;
        let run: (Vec<Real>, Real) = lbfgs_refine(
            &problem,
            found_params,
            found_cost,
            &lower,
            &upper,
            polish,
            alu,
        );
        let ghost before = views(runs@);
        runs.push(run);
        assert(views(runs@) =~= before.push((run.0@, run.1)));
        k = k + 1;
    }
    assert forall|f: Arith, g: Source<S>, h: Solver|
        #![trigger implements(*alu, f), generates(*draw, g), follows(*polish, h)]
        implements(*alu, f) && generates(*draw, g) && follows(*polish, h) implies views(runs@)
        == restart_outcomes(f, g, h, start, obs, lower@, upper@) by {
        let all = restart_outcomes(f, g, h, start, obs, lower@, upper@);
        assert(all.take(N_RESTARTS as int) == all);
    }
    let out: SbplResult = conclude(&runs, &lower, unit, n_obs, n_bands, alu);
    Some(out)
}

/// Fits the power law to the bands.
///
/// This is [`fit_from`] with a small generator that is seeded with [`SEED`].
pub fn fit_sbpl<
    D: Fn(SmallRng, Draw) -> (SmallRng, Real),
    P: Fn(&ScaledSbplCost, &Vec<Real>) -> Option<Vec<Real>>,
    A: Fn(Op) -> Real,
>(bands: &Vec<Band>, draw: &D, polish: &P, alu: &A) -> (r: Option<SbplResult>)
    requires
        total(*alu),
        solves(*polish),
        distinct(bands@),
        complete(bands@),
        exists|f: Arith| #[trigger] implements(*alu, f),
        forall|f: Arith| #[trigger]
            implements(*alu, f) ==> answers_all(*draw, f) && searchable(
                f,
                in_name_order(bands@),
            ),
    ensures
        r is None <==> observation_count(bands@) < MIN_OBSERVATIONS,
        r matches Some(out) ==> {
            &&& out.n_obs == observation_count(bands@)
            &&& out.n_bands == band_count(bands@)
            &&& out.all_finite()
            &&& out.n_bands < MIN_BANDS ==> out == SbplResult::nothing(out.n_obs, out.n_bands)
        },
        forall|f: Arith, g: Source<SmallRng>|
            #![trigger implements(*alu, f), generates(*draw, g)]
            implements(*alu, f) && generates(*draw, g) ==> fitted(
                f,
                g,
                *polish,
                seeded(SEED, usize::BITS),
                in_name_order(bands@),
                r,
            ),
        forall|f: Arith, g: Source<SmallRng>, h: Solver|
            #![trigger implements(*alu, f), generates(*draw, g), follows(*polish, h)]
            implements(*alu, f) && generates(*draw, g) && follows(*polish, h) ==> r == fit_result(
                f,
                g,
                h,
                seeded(SEED, usize::BITS),
                in_name_order(bands@),
            ),
{
    let rng: SmallRng = seed_generator(SEED);
    fit_from(bands, rng, draw, polish, alu)
}

} // verus!
