//! What a fit reports, by name: which parameter stands in which field, what the spread of
//! each is, between which bounds they are sought, and when there is nothing to report.

use vstd::prelude::*;

use crate::arith::{Arith, Op};
use crate::bands::Band;
use crate::cost::{SbplObs, ScaledSbplCost};
use crate::fit::{
    all_restarted, attempted, best, column, concluded, converted, deviation, fit_result, fitted,
    lower_bounds, mean, physical, restart_outcomes, restart_search, restart_state, searchable,
    spread, squares, sum, upper_bounds,
};
use crate::fit_laws::{
    first_of_least, keeps_shape, law_best_is_cheapest, law_gathered_sound, lemma_outcomes_shape,
};
use crate::observe::{band_count, earliest, flux_unit, gathered, latest, normalised};
use crate::reals::{close, size};
use crate::refine::{polished, refinement, Solver};
use crate::result::{reported, SbplResult};
use crate::rounding::{
    counts_exactly, number, rounds_products, rounds_quotients, rounds_squares_and_roots,
    rounds_sums, roundoff, whole_product,
};
use crate::swarm::{drawable, found, Source};
use crate::unit_laws::{distance, lemma_mean_of_three, lemma_root_of_three, spreads_regularly};
use crate::word::{
    at_most, finite, less, Real, FIFTEEN, FIVE, HUNDRED, HUNDREDTH, INFINITY, MINUS_FIVE,
    MINUS_TEN, MINUS_THREE, NEG_INFINITY, TEN, ZERO,
};
use crate::word_laws::law_named_numbers;

verus! {

/// The field holds `v` if that is finite and nothing otherwise.
pub open spec fn tells(field: Option<Real>, v: Real) -> bool {
    &&& finite(v) ==> field == Some(v)
    &&& !finite(v) ==> field is None
}

/// A value is reported where it is finite, and as it is.
pub proof fn law_reported(v: Real)
    ensures
        tells(reported(v), v),
{
}

/// The amplitude of the parameters `p` in physical units: the logarithm of the unit of flux
/// is added, and fifteen times the spectral index taken away.
pub open spec fn physical_amplitude(f: Arith, p: Seq<Real>, log_unit: Real) -> Real {
    f(Op::Sub(f(Op::Add(p[4], log_unit)), f(Op::Mul(FIFTEEN, p[2]))))
}

/// `r` reports the parameters `p` with the cost `c`, each under its name, and for each the
/// standard deviation of that very parameter across the outcomes.
pub open spec fn reports(
    f: Arith,
    r: SbplResult,
    p: Seq<Real>,
    c: Real,
    outcomes: Seq<(Seq<Real>, Real)>,
    log_unit: Real,
) -> bool {
    let n = outcomes.len();
    &&& tells(r.alpha1, p[0])
    &&& tells(r.alpha2, p[1])
    &&& tells(r.beta, p[2])
    &&& tells(r.logd, p[3])
    &&& tells(r.loga, physical_amplitude(f, p, log_unit))
    &&& tells(r.tb, p[5])
    &&& tells(r.t0, p[6])
    &&& tells(r.alpha1_err, deviation(f, Seq::new(n, |k: int| outcomes[k].0[0])))
    &&& tells(r.alpha2_err, deviation(f, Seq::new(n, |k: int| outcomes[k].0[1])))
    &&& tells(r.beta_err, deviation(f, Seq::new(n, |k: int| outcomes[k].0[2])))
    &&& tells(r.logd_err, deviation(f, Seq::new(n, |k: int| outcomes[k].0[3])))
    &&& tells(
        r.loga_err,
        deviation(f, Seq::new(n, |k: int| physical_amplitude(f, outcomes[k].0, log_unit))),
    )
    &&& tells(r.tb_err, deviation(f, Seq::new(n, |k: int| outcomes[k].0[5])))
    &&& tells(r.t0_err, deviation(f, Seq::new(n, |k: int| outcomes[k].0[6])))
    &&& tells(r.reduced_chi2, c)
}

/// Every vector of parameters is whole.
pub open spec fn all_whole(outcomes: Seq<(Seq<Real>, Real)>) -> bool {
    forall|k: int| 0 <= k < outcomes.len() ==> (#[trigger] outcomes[k]).0.len() >= 7
}

proof fn lemma_best_is_whole(fallback: Seq<Real>, outcomes: Seq<(Seq<Real>, Real)>)
    requires
        fallback.len() >= 7,
        all_whole(outcomes),
    ensures
        best(fallback, outcomes).0.len() >= 7,
{
    law_best_is_cheapest(fallback, outcomes);
    if best(fallback, outcomes) != (fallback, INFINITY) {
        let k = choose|k: int|
            #![trigger outcomes[k]]
            0 <= k < outcomes.len() && best(fallback, outcomes) == outcomes[k] && forall|j: int|
                0 <= j < k ==> !at_most((#[trigger] outcomes[j]).1, outcomes[k].1);
        assert(outcomes[k].0.len() >= 7);
    }
}

proof fn lemma_columns(f: Arith, outcomes: Seq<(Seq<Real>, Real)>, log_unit: Real, i: int)
    requires
        all_whole(outcomes),
        0 <= i < 7,
    ensures
        i != 4 ==> column(f, outcomes, log_unit, i) == Seq::new(
            outcomes.len(),
            |k: int| outcomes[k].0[i],
        ),
        i == 4 ==> column(f, outcomes, log_unit, i) == Seq::new(
            outcomes.len(),
            |k: int| physical_amplitude(f, outcomes[k].0, log_unit),
        ),
{
    let a = column(f, outcomes, log_unit, i);
    assert forall|k: int| 0 <= k < outcomes.len() implies #[trigger] a[k] == if i == 4 {
        physical_amplitude(f, outcomes[k].0, log_unit)
    } else {
        outcomes[k].0[i]
    } by {
        assert(outcomes[k].0.len() >= 7);
        assert(a[k] == physical(f, outcomes[k].0, log_unit)[i]);
    }
    if i == 4 {
        assert(a =~= Seq::new(
            outcomes.len(),
            |k: int| physical_amplitude(f, outcomes[k].0, log_unit),
        ));
    } else {
        assert(a =~= Seq::new(outcomes.len(), |k: int| outcomes[k].0[i]));
    }
}

/// The conclusion from outcomes names each parameter of the best of them, and each standard
/// deviation, by what it is. Without outcomes it names nothing.
pub proof fn law_conclusion_names_parameters(
    f: Arith,
    outcomes: Seq<(Seq<Real>, Real)>,
    fallback: Seq<Real>,
    unit: Real,
    n_obs: usize,
    n_bands: usize,
)
    requires
        fallback.len() >= 7,
        all_whole(outcomes),
    ensures
        ({
            let r = concluded(f, outcomes, fallback, unit, n_obs, n_bands);
            let (p, c) = best(fallback, outcomes);
            &&& r.n_obs == n_obs
            &&& r.n_bands == n_bands
            &&& outcomes.len() > 0 ==> reports(f, r, p, c, outcomes, f(Op::Log10(unit)))
            &&& outcomes.len() == 0 ==> silent(r)
        }),
{
    let log_unit = f(Op::Log10(unit));
    lemma_best_is_whole(fallback, outcomes);
    lemma_columns(f, outcomes, log_unit, 0);
    lemma_columns(f, outcomes, log_unit, 1);
    lemma_columns(f, outcomes, log_unit, 2);
    lemma_columns(f, outcomes, log_unit, 3);
    lemma_columns(f, outcomes, log_unit, 4);
    lemma_columns(f, outcomes, log_unit, 5);
    lemma_columns(f, outcomes, log_unit, 6);
    let stds = spread(f, outcomes, log_unit);
    assert(stds[0] == deviation(f, column(f, outcomes, log_unit, 0)));
    assert(stds[1] == deviation(f, column(f, outcomes, log_unit, 1)));
    assert(stds[2] == deviation(f, column(f, outcomes, log_unit, 2)));
    assert(stds[3] == deviation(f, column(f, outcomes, log_unit, 3)));
    assert(stds[4] == deviation(f, column(f, outcomes, log_unit, 4)));
    assert(stds[5] == deviation(f, column(f, outcomes, log_unit, 5)));
    assert(stds[6] == deviation(f, column(f, outcomes, log_unit, 6)));
}

/// No parameter, no spread and no cost is reported.
pub open spec fn silent(r: SbplResult) -> bool {
    &&& r.alpha1 is None && r.alpha2 is None && r.beta is None && r.logd is None
    &&& r.loga is None && r.tb is None && r.t0 is None
    &&& r.alpha1_err is None && r.alpha2_err is None && r.beta_err is None && r.logd_err is None
    &&& r.loga_err is None && r.tb_err is None && r.t0_err is None
    &&& r.reduced_chi2 is None
}

/// The result without a fit reports the counts and nothing else.
pub proof fn law_nothing_is_silent(n_obs: usize, n_bands: usize)
    ensures
        silent(SbplResult::nothing(n_obs, n_bands)),
        SbplResult::nothing(n_obs, n_bands).n_obs == n_obs,
        SbplResult::nothing(n_obs, n_bands).n_bands == n_bands,
{
}

/// Sums are added up from zero, first to last; the mean is the sum over the number of terms;
/// the deviation is the root of the mean of the squared distances from the mean.
pub proof fn law_deviation_in_steps(f: Arith, xs: Seq<Real>, x: Real)
    ensures
        sum(f, Seq::<Real>::empty()) == ZERO,
        sum(f, xs.push(x)) == f(Op::Add(sum(f, xs), x)),
        mean(f, xs) == f(Op::Div(sum(f, xs), f(Op::Count(xs.len() as usize)))),
        ({
            let centre = mean(f, xs);
            let terms = Seq::new(xs.len(), |k: int| f(Op::Square(f(Op::Sub(xs[k], centre)))));
            deviation(f, xs) == f(
                Op::Sqrt(f(Op::Div(sum(f, terms), f(Op::Count(xs.len() as usize))))),
            )
        }),
{
    assert(xs.push(x).drop_last() =~= xs);
    let centre = mean(f, xs);
    assert(squares(f, xs, centre) =~= Seq::new(
        xs.len(),
        |k: int| f(Op::Square(f(Op::Sub(xs[k], centre)))),
    ));
}

/// The deviation of three numbers, squared and times three, is the sum of their squared
/// distances from the mean, and the mean times three is their sum, but for rounding.
pub proof fn law_deviation_of_numbers(f: Arith, xs: Seq<Real>, reach: real)
    requires
        rounds_sums(f),
        rounds_quotients(f),
        rounds_squares_and_roots(f),
        counts_exactly(f),
        xs.len() == 3,
        spreads_regularly(f, xs),
        size(number(xs[0])) <= reach,
        size(number(xs[1])) <= reach,
        size(number(xs[2])) <= reach,
    ensures
        ({
            let v = 2 as real * roundoff();
            let centre = number(mean(f, xs));
            let root = number(deviation(f, xs));
            let (d0, d1, d2) = (distance(f, xs, 0), distance(f, xs, 1), distance(f, xs, 2));
            let total = d0 * d0 + d1 * d1 + d2 * d2;
            &&& size(
                3 as real * centre - (number(xs[0]) + number(xs[1]) + number(xs[2])),
            ) <= 12 as real * (v * reach)
            &&& size(d0 - (number(xs[0]) - centre)) <= 3 as real * (v * reach)
            &&& size(d1 - (number(xs[1]) - centre)) <= 3 as real * (v * reach)
            &&& size(d2 - (number(xs[2]) - centre)) <= 3 as real * (v * reach)
            &&& root >= 0 as real
            &&& close(3 as real * (root * root), total, 9 as real * (v * total))
        }),
{
    lemma_mean_of_three(f, xs, reach);
    lemma_root_of_three(f, xs);
    assert(size(distance(f, xs, 0) - (number(xs[0]) - number(mean(f, xs)))) <= 3 as real * ((
    2 as real * roundoff()) * reach));
    assert(size(distance(f, xs, 1) - (number(xs[1]) - number(mean(f, xs)))) <= 3 as real * ((
    2 as real * roundoff()) * reach));
    assert(size(distance(f, xs, 2) - (number(xs[2]) - number(mean(f, xs)))) <= 3 as real * ((
    2 as real * roundoff()) * reach));
}

/// `x` added up `n` times.
pub open spec fn copies(f: Arith, x: Real, n: nat) -> Real
    decreases n,
{
    if n == 0 {
        ZERO
    } else {
        f(Op::Add(copies(f, x, (n - 1) as nat), x))
    }
}

/// Arithmetic is exact on `n` numbers that equal `x`: their mean is `x`, and zeros are added,
/// squared, divided and rooted to zero.
pub open spec fn rests_on(f: Arith, x: Real, n: nat) -> bool {
    &&& f(Op::Div(copies(f, x, n), f(Op::Count(n as usize)))) == x
    &&& f(Op::Sub(x, x)) == ZERO
    &&& f(Op::Square(ZERO)) == ZERO
    &&& f(Op::Add(ZERO, ZERO)) == ZERO
    &&& f(Op::Div(ZERO, f(Op::Count(n as usize)))) == ZERO
    &&& f(Op::Sqrt(ZERO)) == ZERO
}

proof fn lemma_sum_of_copies(f: Arith, x: Real, xs: Seq<Real>)
    requires
        forall|k: int| 0 <= k < xs.len() ==> #[trigger] xs[k] == x,
    ensures
        sum(f, xs) == copies(f, x, xs.len()),
    decreases xs.len(),
{
    if xs.len() > 0 {
        lemma_sum_of_copies(f, x, xs.drop_last());
    }
}

proof fn lemma_copies_of_zero(f: Arith, n: nat)
    requires
        f(Op::Add(ZERO, ZERO)) == ZERO,
    ensures
        copies(f, ZERO, n) == ZERO,
    decreases n,
{
    if n > 0 {
        lemma_copies_of_zero(f, (n - 1) as nat);
    }
}

/// Numbers that all agree have no deviation.
pub proof fn law_equals_have_no_deviation(f: Arith, x: Real, xs: Seq<Real>)
    requires
        rests_on(f, x, xs.len()),
        forall|k: int| 0 <= k < xs.len() ==> #[trigger] xs[k] == x,
    ensures
        mean(f, xs) == x,
        deviation(f, xs) == ZERO,
{
    lemma_sum_of_copies(f, x, xs);
    let qs = squares(f, xs, x);
    assert forall|k: int| 0 <= k < qs.len() implies #[trigger] qs[k] == ZERO by {
        assert(xs[k] == x);
    }
    lemma_sum_of_copies(f, ZERO, qs);
    lemma_copies_of_zero(f, qs.len());
}

/// The outcomes agree in parameter `i`, which is `x`.
pub open spec fn agree_in(outcomes: Seq<(Seq<Real>, Real)>, i: int, x: Real) -> bool {
    forall|k: int| 0 <= k < outcomes.len() ==> (#[trigger] outcomes[k]).0[i] == x
}

/// A parameter in which all restarts agree has no spread, whatever the others do.
pub proof fn law_agreed_parameter_has_no_spread(
    f: Arith,
    outcomes: Seq<(Seq<Real>, Real)>,
    fallback: Seq<Real>,
    unit: Real,
    n_obs: usize,
    n_bands: usize,
    x: Real,
)
    requires
        fallback.len() >= 7,
        all_whole(outcomes),
        outcomes.len() > 0,
        rests_on(f, x, outcomes.len()),
    ensures
        ({
            let r = concluded(f, outcomes, fallback, unit, n_obs, n_bands);
            &&& agree_in(outcomes, 0, x) ==> r.alpha1_err == Some(ZERO)
            &&& agree_in(outcomes, 1, x) ==> r.alpha2_err == Some(ZERO)
            &&& agree_in(outcomes, 2, x) ==> r.beta_err == Some(ZERO)
            &&& agree_in(outcomes, 3, x) ==> r.logd_err == Some(ZERO)
            &&& agree_in(outcomes, 5, x) ==> r.tb_err == Some(ZERO)
            &&& agree_in(outcomes, 6, x) ==> r.t0_err == Some(ZERO)
        }),
{
    law_conclusion_names_parameters(f, outcomes, fallback, unit, n_obs, n_bands);
    let n = outcomes.len();
    assert(finite(ZERO));
    if agree_in(outcomes, 0, x) {
        law_equals_have_no_deviation(f, x, Seq::new(n, |k: int| outcomes[k].0[0]));
    }
    if agree_in(outcomes, 1, x) {
        law_equals_have_no_deviation(f, x, Seq::new(n, |k: int| outcomes[k].0[1]));
    }
    if agree_in(outcomes, 2, x) {
        law_equals_have_no_deviation(f, x, Seq::new(n, |k: int| outcomes[k].0[2]));
    }
    if agree_in(outcomes, 3, x) {
        law_equals_have_no_deviation(f, x, Seq::new(n, |k: int| outcomes[k].0[3]));
    }
    if agree_in(outcomes, 5, x) {
        law_equals_have_no_deviation(f, x, Seq::new(n, |k: int| outcomes[k].0[5]));
    }
    if agree_in(outcomes, 6, x) {
        law_equals_have_no_deviation(f, x, Seq::new(n, |k: int| outcomes[k].0[6]));
    }
}

/// Converting parameters to physical units changes the amplitude alone: to the amplitude
/// plus the logarithm of the unit, less fifteen times the spectral index.
pub proof fn law_physical_converts_amplitude(f: Arith, p: Seq<Real>, log_unit: Real, i: int)
    requires
        p.len() >= 7,
        0 <= i < p.len(),
    ensures
        physical(f, p, log_unit).len() == p.len(),
        physical(f, p, log_unit)[4] == physical_amplitude(f, p, log_unit),
        i != 4 ==> physical(f, p, log_unit)[i] == p[i],
{
}

/// As numbers: the converted amplitude is the amplitude plus the logarithm of the unit less
/// fifteen times the spectral index, but for three rounding errors.
pub proof fn law_converted_of_numbers(f: Arith, loga: Real, beta: Real, log_unit: Real)
    requires
        rounds_sums(f),
        rounds_products(f),
        whole_product(f, FIFTEEN, beta),
        finite(converted(f, loga, beta, log_unit)),
    ensures
        ({
            let (s, c) = (f(Op::Add(loga, log_unit)), f(Op::Mul(FIFTEEN, beta)));
            let r = number(converted(f, loga, beta, log_unit));
            size(r - (number(loga) + number(log_unit) - 15 as real * number(beta))) <= roundoff()
                * size(r) + roundoff() * size(number(s)) + roundoff() * size(number(c))
        }),
{
    law_named_numbers();
    let (s, c) = (f(Op::Add(loga, log_unit)), f(Op::Mul(FIFTEEN, beta)));
    assert(converted(f, loga, beta, log_unit) == f(Op::Sub(s, c)));
    assert(finite(s) && finite(c));
    assert(number(FIFTEEN) * number(beta) == 15 as real * number(beta));
}

/// The bounds: both indices from -10 to 10, the spectral index from -5 to 5, the smoothness
/// from -3 to 0, the amplitude from -10 to 10, the break from a hundredth of the duration
/// after the first observation to the last, and the zero-point from a hundred days before
/// the first observation to the last.
pub proof fn law_bounds(f: Arith, observations: Seq<SbplObs>)
    ensures
        ({
            let (first, last) = (earliest(observations), latest(observations));
            let lower = lower_bounds(f, observations);
            let upper = upper_bounds(observations);
            &&& lower.len() == 7 && upper.len() == 7
            &&& lower[0] == MINUS_TEN && upper[0] == TEN
            &&& lower[1] == MINUS_TEN && upper[1] == TEN
            &&& lower[2] == MINUS_FIVE && upper[2] == FIVE
            &&& lower[3] == MINUS_THREE && upper[3] == ZERO
            &&& lower[4] == MINUS_TEN && upper[4] == TEN
            &&& lower[5] == f(Op::Add(first, f(Op::Mul(HUNDREDTH, f(Op::Sub(last, first))))))
            &&& upper[5] == last
            &&& lower[6] == f(Op::Sub(first, HUNDRED))
            &&& upper[6] == last
        }),
        earliest(Seq::<SbplObs>::empty()) == INFINITY,
        latest(Seq::<SbplObs>::empty()) == NEG_INFINITY,
{
}

/// Restart after restart: each search starts in the state that the one before it left the
/// source in, and each outcome is what refinement makes of what the search found.
pub open spec fn restarts_in_turn<S>(
    f: Arith,
    g: Source<S>,
    h: Solver,
    observations: Seq<SbplObs>,
    lower: Seq<Real>,
    upper: Seq<Real>,
    states: Seq<S>,
    outcomes: Seq<(Seq<Real>, Real)>,
) -> bool {
    &&& states.len() == outcomes.len() + 1
    &&& forall|k: int|
        0 <= k < outcomes.len() ==> {
            let (after, x, c) = found(f, g, states[k], observations, lower, upper, 30, 200);
            &&& states[k + 1] == after
            &&& #[trigger] outcomes[k] == refinement(f, h, observations, lower, upper, (x, c))
        }
}

/// The parameters `p` with the cost `c` are those of the first outcome of least cost, or the
/// lower bounds at infinite cost where no outcome costs less than that.
pub open spec fn picked(
    outcomes: Seq<(Seq<Real>, Real)>,
    lower: Seq<Real>,
    p: Seq<Real>,
    c: Real,
) -> bool {
    ||| exists|b: int| #[trigger] first_of_least(outcomes, b) && outcomes[b] == (p, c)
    ||| p == lower && c == INFINITY && forall|k: int|
        0 <= k < outcomes.len() ==> !less((#[trigger] outcomes[k]).1, INFINITY)
}

proof fn lemma_best_picked(lower: Seq<Real>, outcomes: Seq<(Seq<Real>, Real)>)
    ensures
        picked(outcomes, lower, best(lower, outcomes).0, best(lower, outcomes).1),
{
    law_best_is_cheapest(lower, outcomes);
    let (p, c) = best(lower, outcomes);
    if best(lower, outcomes) != (lower, INFINITY) {
        let k = choose|k: int|
            #![trigger outcomes[k]]
            0 <= k < outcomes.len() && best(lower, outcomes) == outcomes[k] && forall|j: int|
                0 <= j < k ==> !at_most((#[trigger] outcomes[j]).1, outcomes[k].1);
        assert(first_of_least(outcomes, k));
    }
}

/// What a fit returns: nothing with fewer than seven usable observations; the counts alone
/// with fewer than two bands or no duration; and else, from three restarts in turn on the
/// normalised observations between the bounds, the parameters of the first of least cost,
/// each under its name, with the spread of each.
pub proof fn law_fit_by_cases<S>(f: Arith, g: Source<S>, h: Solver, s: S, bands: Seq<Band>)
    requires
        keeps_shape(h),
    ensures
        ({
            let obs = gathered(f, bands);
            let n_bands = band_count(bands);
            let span = f(Op::Sub(latest(obs), earliest(obs)));
            let unit = flux_unit(obs);
            let lower = lower_bounds(f, obs);
            let upper = upper_bounds(obs);
            let r = fit_result(f, g, h, s, bands);
            &&& obs.len() < 7 ==> r is None
            &&& obs.len() >= 7 ==> {
                &&& r is Some
                &&& r->0.n_obs == obs.len() as usize
                &&& r->0.n_bands == n_bands as usize
            }
            &&& obs.len() >= 7 && (n_bands < 2 || at_most(span, ZERO)) ==> silent(r->0)
            &&& obs.len() >= 7 && n_bands >= 2 && !at_most(span, ZERO) ==> exists|
                states: Seq<S>,
                outcomes: Seq<(Seq<Real>, Real)>,
                p: Seq<Real>,
                c: Real,
            |
                {
                    &&& outcomes.len() == 3
                    &&& states[0] == s
                    &&& #[trigger] restarts_in_turn(
                        f,
                        g,
                        h,
                        normalised(f, obs, unit),
                        lower,
                        upper,
                        states,
                        outcomes,
                    )
                    &&& picked(outcomes, lower, p, c)
                    &&& #[trigger] reports(f, r->0, p, c, outcomes, f(Op::Log10(unit)))
                }
        }),
{
    let obs = gathered(f, bands);
    let unit = flux_unit(obs);
    let norm = normalised(f, obs, unit);
    let lower = lower_bounds(f, obs);
    let upper = upper_bounds(obs);
    let n_bands = band_count(bands);
    let span = f(Op::Sub(latest(obs), earliest(obs)));
    let r = fit_result(f, g, h, s, bands);
    law_nothing_is_silent(obs.len() as usize, n_bands as usize);
    if obs.len() >= 7 && n_bands >= 2 && !at_most(span, ZERO) {
        let outcomes = restart_outcomes(f, g, h, s, norm, lower, upper);
        lemma_outcomes_shape(f, g, h, s, norm, lower, upper);
        assert(all_whole(outcomes));
        law_conclusion_names_parameters(
            f,
            outcomes,
            lower,
            unit,
            obs.len() as usize,
            n_bands as usize,
        );
        lemma_best_picked(lower, outcomes);
        let (p, c) = best(lower, outcomes);
        let states = Seq::new(4, |k: int| restart_state(f, g, s, lower, upper, k as nat));
        assert forall|k: int| 0 <= k < outcomes.len() implies {
            let (after, x, c) = found(f, g, states[k], norm, lower, upper, 30, 200);
            &&& states[k + 1] == after
            &&& #[trigger] outcomes[k] == refinement(f, h, norm, lower, upper, (x, c))
        } by {
            assert(states[k + 1] == restart_state(f, g, s, lower, upper, (k + 1) as nat));
            assert(restart_search(f, g, s, norm, lower, upper, k as nat) == (
                found(f, g, states[k], norm, lower, upper, 30, 200).1,
                found(f, g, states[k], norm, lower, upper, 30, 200).2,
            ));
        }
        assert(restarts_in_turn(f, g, h, norm, lower, upper, states, outcomes));
        assert(reports(f, r->0, p, c, outcomes, f(Op::Log10(unit))));
    }
}

/// The same of any solver: each outcome is one that refinement may have from what the search
/// of its restart found, and what is reported of whole outcomes is as above.
pub proof fn law_fitted_by_cases<
    S,
    P: Fn(&ScaledSbplCost, &Vec<Real>) -> Option<Vec<Real>>,
>(f: Arith, g: Source<S>, polish: P, s: S, bands: Seq<Band>, r: Option<SbplResult>)
    requires
        fitted(f, g, polish, s, bands, r),
    ensures
        ({
            let obs = gathered(f, bands);
            let n_bands = band_count(bands);
            let span = f(Op::Sub(latest(obs), earliest(obs)));
            let unit = flux_unit(obs);
            let lower = lower_bounds(f, obs);
            let upper = upper_bounds(obs);
            let norm = normalised(f, obs, unit);
            &&& obs.len() < 7 ==> r is None
            &&& obs.len() >= 7 ==> {
                &&& r is Some
                &&& r->0.n_obs == obs.len() as usize
                &&& r->0.n_bands == n_bands as usize
            }
            &&& obs.len() >= 7 && (n_bands < 2 || at_most(span, ZERO)) ==> silent(r->0)
            &&& obs.len() >= 7 && n_bands >= 2 && !at_most(span, ZERO) ==> exists|
                states: Seq<S>,
                outcomes: Seq<(Seq<Real>, Real)>,
                p: Seq<Real>,
                c: Real,
            |
                {
                    &&& outcomes.len() == 3
                    &&& states[0] == s
                    &&& #[trigger] polished_in_turn(
                        f,
                        g,
                        polish,
                        norm,
                        lower,
                        upper,
                        states,
                        outcomes,
                    )
                    &&& #[trigger] picked(outcomes, lower, p, c)
                    &&& all_whole(outcomes) ==> reports(
                        f,
                        r->0,
                        p,
                        c,
                        outcomes,
                        f(Op::Log10(unit)),
                    )
                }
        }),
{
    law_gathered_sound(f, bands);
    let obs = gathered(f, bands);
    let unit = flux_unit(obs);
    let norm = normalised(f, obs, unit);
    let lower = lower_bounds(f, obs);
    let upper = upper_bounds(obs);
    let n_bands = band_count(bands);
    let span = f(Op::Sub(latest(obs), earliest(obs)));
    law_nothing_is_silent(obs.len() as usize, n_bands as usize);
    if obs.len() >= 7 && n_bands >= 2 && !at_most(span, ZERO) {
        assert(attempted(f, bands));
        let outcomes = choose|o: Seq<(Seq<Real>, Real)>| #[trigger]
            all_restarted(f, g, polish, s, norm, lower, upper, o) && o.len() == 3 && r == Some(
                concluded(f, o, lower, unit, obs.len() as usize, n_bands as usize),
            );
        lemma_best_picked(lower, outcomes);
        let (p, c) = best(lower, outcomes);
        if all_whole(outcomes) {
            law_conclusion_names_parameters(
                f,
                outcomes,
                lower,
                unit,
                obs.len() as usize,
                n_bands as usize,
            );
        }
        let states = Seq::new(4, |k: int| restart_state(f, g, s, lower, upper, k as nat));
        assert forall|k: int| 0 <= k < outcomes.len() implies {
            let (after, x, c) = found(f, g, states[k], norm, lower, upper, 30, 200);
            &&& states[k + 1] == after
            &&& polished(f, polish, norm, lower, upper, (x, c), #[trigger] outcomes[k])
        } by {
            assert(states[k + 1] == restart_state(f, g, s, lower, upper, (k + 1) as nat));
            assert(restart_search(f, g, s, norm, lower, upper, k as nat) == (
                found(f, g, states[k], norm, lower, upper, 30, 200).1,
                found(f, g, states[k], norm, lower, upper, 30, 200).2,
            ));
        }
        assert(polished_in_turn(f, g, polish, norm, lower, upper, states, outcomes));
        assert(picked(outcomes, lower, p, c));
    }
}

/// Restart after restart with a solver that may end in several points.
pub open spec fn polished_in_turn<S, P: Fn(&ScaledSbplCost, &Vec<Real>) -> Option<Vec<Real>>>(
    f: Arith,
    g: Source<S>,
    polish: P,
    observations: Seq<SbplObs>,
    lower: Seq<Real>,
    upper: Seq<Real>,
    states: Seq<S>,
    outcomes: Seq<(Seq<Real>, Real)>,
) -> bool {
    &&& states.len() == outcomes.len() + 1
    &&& forall|k: int|
        0 <= k < outcomes.len() ==> {
            let (after, x, c) = found(f, g, states[k], observations, lower, upper, 30, 200);
            &&& states[k + 1] == after
            &&& polished(f, polish, observations, lower, upper, (x, c), #[trigger] outcomes[k])
        }
}

/// A fit can be searched where it comes to no search, and where its bounds can be drawn
/// between.
pub proof fn law_searchable_by_cases(f: Arith, bands: Seq<Band>)
    ensures
        ({
            let obs = gathered(f, bands);
            let span = f(Op::Sub(latest(obs), earliest(obs)));
            let idle = obs.len() < 7 || band_count(bands) < 2 || at_most(span, ZERO);
            searchable(f, bands) <==> idle || drawable(
                f,
                lower_bounds(f, obs),
                upper_bounds(obs),
            )
        }),
{
    law_gathered_sound(f, bands);
}

} // verus!
