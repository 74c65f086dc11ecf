//! What the unit of flux changes in a fit: the amplitude, and nothing else.

use vstd::prelude::*;
use vstd::seq_lib::group_to_multiset_ensures;

use crate::arith::{Arith, Op};
use crate::bands::{distinct, in_name_order, lemma_arrangement_exists, Band, BandData};
use crate::cost::{SbplObs, N_PARAMS};
use crate::data_laws::{
    has_partner, is_partner, lemma_paired_pointwise, lemma_paired_rearranged, lemma_same_members,
};
use crate::fit::{
    attempted, best, column, converted, deviation, fit_result, lower_bounds, mean,
    restart_outcomes, squares, sum, upper_bounds, BETA, LOGA,
};
use crate::fit_laws::{keeps_shape, law_gathered_sound, lemma_outcomes_shape};
use crate::model::{frequency, has_frequency};
use crate::model_laws::{rescaled, rescaled_obs, times};
use crate::observe::{
    band_count, band_observations, complete, contribution, counts, earliest, flux_unit, gathered,
    latest, normalised, peak, usable,
};
use crate::reals::{
    close, lemma_distances_close, lemma_mean_rounded, lemma_means_shifted, lemma_product_sign,
    lemma_root_rounded, lemma_root_small, lemma_rounded, lemma_roots_close, lemma_scaled,
    lemma_size, lemma_sums_shifted, size,
};
use crate::refine::Solver;
use crate::result::{reported, SbplResult};
use crate::rounding::{
    counts_exactly, lemma_number_order, lemma_roundoff, nearly, normal, number, rounds_products,
    rounds_quotients, rounds_squares_and_roots, rounds_sums, roundoff, whole_quotient,
};
use crate::swarm::Source;
use crate::word::{finite, greater, less, zero, Real, FIFTEEN, NEG_INFINITY, ZERO};

verus! {

broadcast use group_to_multiset_ensures;

/// Scaling by `k` is exact on the words in `e`: it keeps finite numbers finite, it keeps
/// their signs and their order, and it cancels in their quotients.
pub open spec fn scales_exactly(f: Arith, k: Real, e: spec_fn(Real) -> bool) -> bool {
    &&& forall|x: Real|
        e(x) ==> {
            &&& finite(#[trigger] times(f, k, x)) <==> finite(x)
            &&& finite(x) ==> (less(ZERO, times(f, k, x)) <==> less(ZERO, x))
        }
    &&& forall|x: Real, y: Real|
        e(x) && e(y) && finite(x) && finite(y) ==> {
            &&& less(#[trigger] times(f, k, x), #[trigger] times(f, k, y)) <==> less(x, y)
            &&& f(Op::Div(times(f, k, x), times(f, k, y))) == f(Op::Div(x, y))
        }
}

/// Fluxes and uncertainties of the measurements lie in `e`.
pub open spec fn fluxes_in(data: BandData, e: spec_fn(Real) -> bool) -> bool {
    forall|i: int|
        0 <= i < data.times@.len() ==> #[trigger] e(data.values@[i]) && e(data.errors@[i])
}

/// Fluxes and uncertainties of every band whose frequency is known lie in `e`.
pub open spec fn all_fluxes_in(bands: Seq<Band>, e: spec_fn(Real) -> bool) -> bool {
    forall|j: int|
        0 <= j < bands.len() && has_frequency((#[trigger] bands[j]).wavelength) ==> fluxes_in(
            bands[j].data,
            e,
        )
}

/// `y` is the band `x` with fluxes and uncertainties scaled by `k`.
pub open spec fn rescales(f: Arith, k: Real, x: Band, y: Band) -> bool {
    &&& y.name@ == x.name@
    &&& y.wavelength == x.wavelength
    &&& y.data.times@ == x.data.times@
    &&& y.data.values@ == x.data.values@.map_values(|v: Real| times(f, k, v))
    &&& y.data.errors@ == x.data.errors@.map_values(|v: Real| times(f, k, v))
}

/// `ys` are the bands `xs` with fluxes and uncertainties scaled by `k`.
pub open spec fn rescales_all(f: Arith, k: Real, xs: Seq<Band>, ys: Seq<Band>) -> bool {
    &&& xs.len() == ys.len()
    &&& forall|j: int| 0 <= j < xs.len() ==> rescales(f, k, #[trigger] xs[j], ys[j])
}

/// Flux and uncertainty of each observation are finite and lie in `e`.
spec fn observed_in(observations: Seq<SbplObs>, e: spec_fn(Real) -> bool) -> bool {
    forall|i: int|
        0 <= i < observations.len() ==> {
            let o = #[trigger] observations[i];
            finite(o.flux) && finite(o.flux_err) && e(o.flux) && e(o.flux_err)
        }
}

proof fn lemma_band_rescaled(
    f: Arith,
    k: Real,
    e: spec_fn(Real) -> bool,
    nu: Real,
    x: Band,
    y: Band,
    n: nat,
)
    requires
        scales_exactly(f, k, e),
        rescales(f, k, x, y),
        fluxes_in(x.data, e),
        n <= x.data.times@.len(),
        n <= x.data.values@.len(),
        n <= x.data.errors@.len(),
    ensures
        observed_in(band_observations(f, nu, x.data, n), e),
        band_observations(f, nu, y.data, n) == rescaled(
            f,
            k,
            band_observations(f, nu, x.data, n),
        ),
    decreases n,
{
    if n > 0 {
        let m = (n - 1) as nat;
        lemma_band_rescaled(f, k, e, nu, x, y, m);
        let (v, w) = (x.data.values@[n - 1], x.data.errors@[n - 1]);
        assert(e(v) && e(w));
        assert(y.data.values@[n - 1] == times(f, k, v));
        assert(y.data.errors@[n - 1] == times(f, k, w));
        assert(usable(y.data, n - 1) == usable(x.data, n - 1));
        let (a, b) = (
            band_observations(f, nu, x.data, m),
            band_observations(f, nu, x.data, n),
        );
        assert forall|i: int| 0 <= i < b.len() implies {
            let o = #[trigger] b[i];
            finite(o.flux) && finite(o.flux_err) && e(o.flux) && e(o.flux_err)
        } by {
            if i < a.len() {
                assert(b[i] == a[i]);
            }
        }
        assert(band_observations(f, nu, y.data, n) =~= rescaled(f, k, b));
    }
}

proof fn lemma_gathered_rescaled(
    f: Arith,
    k: Real,
    e: spec_fn(Real) -> bool,
    xs: Seq<Band>,
    ys: Seq<Band>,
)
    requires
        scales_exactly(f, k, e),
        rescales_all(f, k, xs, ys),
        complete(xs),
        all_fluxes_in(xs, e),
    ensures
        observed_in(gathered(f, xs), e),
        gathered(f, ys) == rescaled(f, k, gathered(f, xs)),
        band_count(ys) == band_count(xs),
    decreases xs.len(),
{
    if xs.len() == 0 {
        assert(gathered(f, ys) =~= rescaled(f, k, gathered(f, xs)));
    } else {
        let n = xs.len() - 1;
        let (us, vs) = (xs.drop_last(), ys.drop_last());
        assert forall|j: int| 0 <= j < us.len() implies rescales(f, k, #[trigger] us[j], vs[j]) by {
            assert(us[j] == xs[j] && vs[j] == ys[j]);
        }
        assert forall|j: int|
            0 <= j < us.len() && has_frequency((#[trigger] us[j]).wavelength) implies fluxes_in(
            us[j].data,
            e,
        ) by {
            assert(us[j] == xs[j]);
        }
        assert(complete(us)) by {
            assert forall|j: int|
                0 <= j < us.len() && has_frequency(
                    (#[trigger] us[j]).wavelength,
                ) implies us[j].data.times@.len() <= us[j].data.values@.len()
                && us[j].data.times@.len() <= us[j].data.errors@.len() by {
                assert(us[j] == xs[j]);
            }
        }
        lemma_gathered_rescaled(f, k, e, us, vs);
        let (x, y) = (xs[n], ys[n]);
        assert(rescales(f, k, x, y));
        assert(counts(y) == counts(x));
        if let Some(nu) = frequency(f, x.wavelength) {
            lemma_band_rescaled(f, k, e, nu, x, y, x.data.times@.len());
        }
        assert(contribution(f, y) =~= rescaled(f, k, contribution(f, x)));
        let (a, b) = (gathered(f, us), contribution(f, x));
        assert(observed_in(b, e));
        assert forall|i: int| 0 <= i < (a + b).len() implies {
            let o = #[trigger] (a + b)[i];
            finite(o.flux) && finite(o.flux_err) && e(o.flux) && e(o.flux_err)
        } by {
            if i < a.len() {
                assert((a + b)[i] == a[i]);
            } else {
                assert((a + b)[i] == b[i - a.len()]);
            }
        }
        assert(rescaled(f, k, a + b) =~= rescaled(f, k, a) + rescaled(f, k, b));
    }
}

proof fn lemma_times_kept(f: Arith, k: Real, observations: Seq<SbplObs>)
    ensures
        earliest(rescaled(f, k, observations)) == earliest(observations),
        latest(rescaled(f, k, observations)) == latest(observations),
    decreases observations.len(),
{
    if observations.len() > 0 {
        let before = observations.drop_last();
        lemma_times_kept(f, k, before);
        assert(rescaled(f, k, observations).drop_last() =~= rescaled(f, k, before));
    }
}

proof fn lemma_peak_rescaled(
    f: Arith,
    k: Real,
    e: spec_fn(Real) -> bool,
    observations: Seq<SbplObs>,
)
    requires
        scales_exactly(f, k, e),
        observed_in(observations, e),
    ensures
        ({
            let (p, q) = (peak(observations), peak(rescaled(f, k, observations)));
            ||| p == NEG_INFINITY && q == NEG_INFINITY && forall|i: int|
                0 <= i < observations.len() ==> !less(ZERO, (#[trigger] observations[i]).flux)
            ||| finite(p) && e(p) && less(ZERO, p) && q == times(f, k, p)
        }),
    decreases observations.len(),
{
    if observations.len() > 0 {
        let n = observations.len() - 1;
        let before = observations.drop_last();
        assert forall|i: int| 0 <= i < before.len() implies {
            let o = #[trigger] before[i];
            finite(o.flux) && finite(o.flux_err) && e(o.flux) && e(o.flux_err)
        } by {
            assert(before[i] == observations[i]);
        }
        lemma_peak_rescaled(f, k, e, before);
        assert(rescaled(f, k, observations).drop_last() =~= rescaled(f, k, before));
        let x = observations[n].flux;
        assert(finite(x) && e(x));
        let p = peak(before);
        if p == NEG_INFINITY {
            assert forall|i: int|
                !less(ZERO, x) && 0 <= i < observations.len() implies !less(
                ZERO,
                (#[trigger] observations[i]).flux,
            ) by {
                if i < n {
                    assert(before[i] == observations[i]);
                }
            }
            assert(finite(times(f, k, x)));
            assert(greater(NEG_INFINITY, x) == x);
            assert(greater(NEG_INFINITY, times(f, k, x)) == times(f, k, x));
        } else {
            assert(less(times(f, k, p), times(f, k, x)) <==> less(p, x));
        }
    }
}

/// Some observation has a positive flux.
pub open spec fn shines(observations: Seq<SbplObs>) -> bool {
    exists|i: int| 0 <= i < observations.len() && less(ZERO, (#[trigger] observations[i]).flux)
}

proof fn lemma_normalised_rescaled(
    f: Arith,
    k: Real,
    e: spec_fn(Real) -> bool,
    observations: Seq<SbplObs>,
)
    requires
        scales_exactly(f, k, e),
        observed_in(observations, e),
        shines(observations),
    ensures
        ({
            let bright = rescaled(f, k, observations);
            let unit = flux_unit(observations);
            &&& flux_unit(bright) == times(f, k, unit)
            &&& normalised(f, bright, flux_unit(bright)) == normalised(f, observations, unit)
        }),
{
    lemma_peak_rescaled(f, k, e, observations);
    let bright = rescaled(f, k, observations);
    let unit = peak(observations);
    assert(finite(unit) && e(unit) && less(ZERO, unit));
    assert(less(ZERO, times(f, k, unit)));
    let (a, b) = (normalised(f, bright, flux_unit(bright)), normalised(f, observations, unit));
    assert forall|i: int| 0 <= i < observations.len() implies #[trigger] a[i] == b[i] by {
        let o = observations[i];
        assert(e(o.flux) && e(o.flux_err));
        assert(bright[i] == rescaled_obs(f, k, o));
        assert(f(Op::Div(times(f, k, o.flux), times(f, k, unit))) == f(Op::Div(o.flux, unit)));
        assert(f(Op::Div(times(f, k, o.flux_err), times(f, k, unit))) == f(
            Op::Div(o.flux_err, unit),
        ));
    }
    assert(a =~= b);
}

proof fn lemma_arranged_rescaled(f: Arith, k: Real, xs: Seq<Band>, ys: Seq<Band>)
    requires
        distinct(xs),
        rescales_all(f, k, xs, ys),
    ensures
        rescales_all(f, k, in_name_order(xs), in_name_order(ys)),
{
    let r = |x: Band, y: Band| rescales(f, k, x, y);
    assert forall|i: int, j: int| 0 <= i < j < ys.len() implies (#[trigger] ys[i]).name@ != (
    #[trigger] ys[j]).name@ by {
        assert(rescales(f, k, xs[i], ys[i]) && rescales(f, k, xs[j], ys[j]));
    }
    lemma_arrangement_exists(xs);
    lemma_arrangement_exists(ys);
    assert forall|i: int| 0 <= i < xs.len() implies has_partner(#[trigger] xs[i], ys, r) by {
        assert(r(xs[i], ys[i]));
    }
    assert forall|i: int| 0 <= i < ys.len() implies is_partner(xs, #[trigger] ys[i], r) by {
        assert(r(xs[i], ys[i]));
    }
    let (us, vs) = (in_name_order(xs), in_name_order(ys));
    lemma_paired_rearranged(xs, ys, us, vs, r);
    lemma_paired_pointwise(us, vs, r);
    assert forall|j: int| 0 <= j < us.len() implies rescales(f, k, #[trigger] us[j], vs[j]) by {
        assert(r(us[j], vs[j]));
    }
}

proof fn lemma_arranged_members(xs: Seq<Band>, e: spec_fn(Real) -> bool)
    requires
        distinct(xs),
        complete(xs),
        all_fluxes_in(xs, e),
    ensures
        complete(in_name_order(xs)),
        all_fluxes_in(in_name_order(xs), e),
{
    let us = in_name_order(xs);
    lemma_arrangement_exists(xs);
    assert forall|j: int|
        0 <= j < us.len() && has_frequency((#[trigger] us[j]).wavelength) implies fluxes_in(
        us[j].data,
        e,
    ) && us[j].data.times@.len() <= us[j].data.values@.len() && us[j].data.times@.len()
        <= us[j].data.errors@.len() by {
        lemma_same_members(us, xs, us[j]);
        let i = choose|i: int| 0 <= i < xs.len() && xs[i] == us[j];
        assert(has_frequency(xs[i].wavelength));
    }
}

/// What a rescaled light curve shares with the light curve: everything that the fit works
/// on but the unit of flux.
proof fn lemma_fit_rescaled(
    f: Arith,
    k: Real,
    e: spec_fn(Real) -> bool,
    xs: Seq<Band>,
    ys: Seq<Band>,
)
    requires
        scales_exactly(f, k, e),
        distinct(xs),
        complete(xs),
        all_fluxes_in(xs, e),
        rescales_all(f, k, xs, ys),
        shines(gathered(f, in_name_order(xs))),
    ensures
        ({
            let (us, vs) = (in_name_order(xs), in_name_order(ys));
            let (a, b) = (gathered(f, us), gathered(f, vs));
            &&& b.len() == a.len()
            &&& band_count(vs) == band_count(us)
            &&& earliest(b) == earliest(a)
            &&& latest(b) == latest(a)
            &&& flux_unit(b) == times(f, k, flux_unit(a))
            &&& normalised(f, b, flux_unit(b)) == normalised(f, a, flux_unit(a))
        }),
{
    let (us, vs) = (in_name_order(xs), in_name_order(ys));
    lemma_arranged_rescaled(f, k, xs, ys);
    lemma_arranged_members(xs, e);
    lemma_gathered_rescaled(f, k, e, us, vs);
    lemma_times_kept(f, k, gathered(f, us));
    lemma_normalised_rescaled(f, k, e, gathered(f, us));
}

/// The two results agree in everything but the amplitude and its spread.
pub open spec fn agree_but_for_amplitude(a: SbplResult, b: SbplResult) -> bool {
    b == (SbplResult { loga: b.loga, loga_err: b.loga_err, ..a })
}

/// A common exact factor of all fluxes and uncertainties changes nothing in a fit but the
/// amplitude and its spread, as long as some flux is positive. The unit of flux is scaled
/// alike.
pub proof fn law_rescaling_changes_amplitude_only<S>(
    f: Arith,
    g: Source<S>,
    h: Solver,
    s: S,
    k: Real,
    e: spec_fn(Real) -> bool,
    xs: Seq<Band>,
    ys: Seq<Band>,
)
    requires
        scales_exactly(f, k, e),
        keeps_shape(h),
        distinct(xs),
        complete(xs),
        all_fluxes_in(xs, e),
        rescales_all(f, k, xs, ys),
        shines(gathered(f, in_name_order(xs))),
    ensures
        ({
            let a = fit_result(f, g, h, s, in_name_order(xs));
            let b = fit_result(f, g, h, s, in_name_order(ys));
            &&& a is None <==> b is None
            &&& a is Some ==> agree_but_for_amplitude(a->0, b->0)
        }),
        flux_unit(gathered(f, in_name_order(ys))) == times(
            f,
            k,
            flux_unit(gathered(f, in_name_order(xs))),
        ),
{
    lemma_fit_rescaled(f, k, e, xs, ys);
    let (us, vs) = (in_name_order(xs), in_name_order(ys));
    let (a, b) = (gathered(f, us), gathered(f, vs));
    let obs = normalised(f, a, flux_unit(a));
    let (lower, upper) = (lower_bounds(f, a), upper_bounds(a));
    assert(lower_bounds(f, b) =~= lower);
    assert(upper_bounds(b) =~= upper);
    let outcomes = restart_outcomes(f, g, h, s, obs, lower, upper);
    lemma_outcomes_shape(f, g, h, s, obs, lower, upper);
    let (p, q) = (f(Op::Log10(flux_unit(a))), f(Op::Log10(flux_unit(b))));
    assert forall|i: int| 0 <= i < N_PARAMS && i != LOGA implies #[trigger] column(f, outcomes, p, i)
        == column(f, outcomes, q, i) by {
        assert forall|j: int| 0 <= j < outcomes.len() implies #[trigger] column(
            f,
            outcomes,
            p,
            i,
        )[j] == column(f, outcomes, q, i)[j] by {
            assert(outcomes[j].0.len() == N_PARAMS);
        }
        assert(column(f, outcomes, p, i) =~= column(f, outcomes, q, i));
    }
    assert(column(f, outcomes, p, 0) == column(f, outcomes, q, 0));
    assert(column(f, outcomes, p, 1) == column(f, outcomes, q, 1));
    assert(column(f, outcomes, p, 2) == column(f, outcomes, q, 2));
    assert(column(f, outcomes, p, 3) == column(f, outcomes, q, 3));
    assert(column(f, outcomes, p, 5) == column(f, outcomes, q, 5));
    assert(column(f, outcomes, p, 6) == column(f, outcomes, q, 6));
}

/// The outcomes of the restarts of a fit to the bands.
pub open spec fn outcomes_of<S>(f: Arith, g: Source<S>, h: Solver, s: S, bands: Seq<Band>) -> Seq<
    (Seq<Real>, Real),
> {
    let a = gathered(f, bands);
    restart_outcomes(
        f,
        g,
        h,
        s,
        normalised(f, a, flux_unit(a)),
        lower_bounds(f, a),
        upper_bounds(a),
    )
}

/// The parameters of the best outcome of a fit to the bands.
pub open spec fn best_of<S>(f: Arith, g: Source<S>, h: Solver, s: S, bands: Seq<Band>) -> Seq<
    Real,
> {
    best(lower_bounds(f, gathered(f, bands)), outcomes_of(f, g, h, s, bands)).0
}

/// The amplitude of parameters in physical units.
pub open spec fn amplitude(f: Arith, p: Seq<Real>, log_unit: Real) -> Real {
    converted(f, p[LOGA as int], p[BETA as int], log_unit)
}

/// The amplitudes of the outcomes in physical units.
pub open spec fn amplitudes(f: Arith, outcomes: Seq<(Seq<Real>, Real)>, log_unit: Real) -> Seq<
    Real,
> {
    Seq::new(outcomes.len(), |j: int| amplitude(f, outcomes[j].0, log_unit))
}

/// A common exact factor of all fluxes and uncertainties changes the amplitude of a fit and
/// its spread through the logarithm of the unit alone: the same outcomes are converted, on
/// the one side with the logarithm of the unit, on the other with that of the scaled unit.
pub proof fn law_rescaling_changes_log_unit_only<S>(
    f: Arith,
    g: Source<S>,
    h: Solver,
    s: S,
    k: Real,
    e: spec_fn(Real) -> bool,
    xs: Seq<Band>,
    ys: Seq<Band>,
)
    requires
        scales_exactly(f, k, e),
        keeps_shape(h),
        distinct(xs),
        complete(xs),
        all_fluxes_in(xs, e),
        rescales_all(f, k, xs, ys),
        shines(gathered(f, in_name_order(xs))),
    ensures
        ({
            let (us, vs) = (in_name_order(xs), in_name_order(ys));
            let unit = flux_unit(gathered(f, us));
            let (from, to) = (f(Op::Log10(unit)), f(Op::Log10(times(f, k, unit))));
            let (a, b) = (fit_result(f, g, h, s, us), fit_result(f, g, h, s, vs));
            let params = best_of(f, g, h, s, us);
            let outcomes = outcomes_of(f, g, h, s, us);
            &&& attempted(f, us) ==> {
                &&& a is Some && b is Some
                &&& a->0.loga == reported(amplitude(f, params, from))
                &&& b->0.loga == reported(amplitude(f, params, to))
                &&& a->0.loga_err == reported(deviation(f, amplitudes(f, outcomes, from)))
                &&& b->0.loga_err == reported(deviation(f, amplitudes(f, outcomes, to)))
            }
            &&& !attempted(f, us) && a is Some ==> {
                &&& b is Some
                &&& a->0.loga is None && b->0.loga is None
                &&& a->0.loga_err is None && b->0.loga_err is None
            }
        }),
{
    lemma_fit_rescaled(f, k, e, xs, ys);
    let (us, vs) = (in_name_order(xs), in_name_order(ys));
    law_gathered_sound(f, us);
    let (a, b) = (gathered(f, us), gathered(f, vs));
    let obs = normalised(f, a, flux_unit(a));
    let (lower, upper) = (lower_bounds(f, a), upper_bounds(a));
    assert(lower_bounds(f, b) =~= lower);
    assert(upper_bounds(b) =~= upper);
    let outcomes = restart_outcomes(f, g, h, s, obs, lower, upper);
    lemma_outcomes_shape(f, g, h, s, obs, lower, upper);
    let (p, q) = (f(Op::Log10(flux_unit(a))), f(Op::Log10(flux_unit(b))));
    assert forall|j: int| 0 <= j < outcomes.len() implies (#[trigger] outcomes[j]).0.len()
        == N_PARAMS by {}
    assert(column(f, outcomes, p, LOGA as int) =~= amplitudes(f, outcomes, p));
    assert(column(f, outcomes, q, LOGA as int) =~= amplitudes(f, outcomes, q));
}

/// Finite parameters convert without overflow, with sums and amplitude of size up to
/// `reach`.
pub open spec fn converts(f: Arith, p: Seq<Real>, log_unit: Real, reach: real) -> bool {
    finite(p[LOGA as int]) && finite(p[BETA as int]) ==> {
        let sum = f(Op::Add(p[LOGA as int], log_unit));
        &&& finite(amplitude(f, p, log_unit))
        &&& size(number(sum)) <= reach
        &&& size(number(amplitude(f, p, log_unit))) <= reach
    }
}

/// The logarithms differ by `shift`, but for an error of `slip`.
pub open spec fn logs_differ(from: Real, to: Real, shift: Real, slip: real) -> bool {
    &&& finite(from) && finite(to) && finite(shift)
    &&& size(number(to) - number(from) - number(shift)) <= slip
}

proof fn lemma_amplitude_shifted(
    f: Arith,
    p: Seq<Real>,
    from: Real,
    to: Real,
    shift: Real,
    slip: real,
    reach: real,
)
    requires
        rounds_sums(f),
        rounds_products(f),
        logs_differ(from, to, shift, slip),
        converts(f, p, from, reach),
        converts(f, p, to, reach),
    ensures
        ({
            let (a, b) = (amplitude(f, p, from), amplitude(f, p, to));
            &&& finite(a) <==> finite(b)
            &&& finite(a) ==> {
                &&& size(number(a)) <= reach
                &&& size(number(b)) <= reach
                &&& size(number(b) - number(a) - number(shift)) <= slip + 4 as real * (roundoff()
                    * reach)
            }
        }),
{
    let (a, b) = (amplitude(f, p, from), amplitude(f, p, to));
    let (x, y) = (p[LOGA as int], f(Op::Mul(FIFTEEN, p[BETA as int])));
    let (s1, s2) = (f(Op::Add(x, from)), f(Op::Add(x, to)));
    assert(a == f(Op::Sub(s1, y)) && b == f(Op::Sub(s2, y)));
    let u = roundoff();
    lemma_roundoff();
    if finite(a) || finite(b) {
        assert(finite(y));
        assert(finite(x) && finite(p[BETA as int]));
        assert(finite(a) && finite(b) && finite(s1) && finite(s2));
        lemma_scaled(size(number(a)), reach, u);
        lemma_scaled(size(number(b)), reach, u);
        lemma_scaled(size(number(s1)), reach, u);
        lemma_scaled(size(number(s2)), reach, u);
        assert(nearly(a, number(s1) - number(y)) && nearly(b, number(s2) - number(y)));
        assert(nearly(s1, number(x) + number(from)) && nearly(s2, number(x) + number(to)));
        lemma_sums_shifted(
            number(a),
            number(b),
            number(s1),
            number(s2),
            number(x),
            number(y),
            number(from),
            number(to),
            number(shift),
            slip,
            u * reach,
        );
    }
}

/// The steps of a standard deviation neither overflow nor underflow.
pub open spec fn spreads_regularly(f: Arith, xs: Seq<Real>) -> bool {
    let centre = mean(f, xs);
    let count = f(Op::Count(xs.len() as usize));
    &&& finite(deviation(f, xs))
    &&& whole_quotient(f, sum(f, xs), count)
    &&& whole_quotient(f, sum(f, squares(f, xs, centre)), count)
    &&& forall|j: int|
        0 <= j < xs.len() ==> {
            let d = f(Op::Sub(#[trigger] xs[j], centre));
            normal(f(Op::Square(d))) || zero(d)
        }
}

proof fn lemma_sum_of_three(f: Arith, xs: Seq<Real>)
    requires
        xs.len() == 3,
    ensures
        sum(f, xs) == f(Op::Add(f(Op::Add(f(Op::Add(ZERO, xs[0])), xs[1])), xs[2])),
{
    reveal_with_fuel(sum, 4);
    let (a, b) = (xs.drop_last(), xs.drop_last().drop_last());
    assert(a.last() == xs[1] && b.last() == xs[0]);
    assert(b.drop_last() =~= Seq::<Real>::empty());
}

/// A finite deviation is one of finite numbers.
proof fn lemma_deviation_finite(f: Arith, xs: Seq<Real>)
    requires
        rounds_sums(f),
        rounds_quotients(f),
        rounds_squares_and_roots(f),
        counts_exactly(f),
        xs.len() == 3,
        finite(deviation(f, xs)),
    ensures
        finite(xs[0]) && finite(xs[1]) && finite(xs[2]),
        finite(mean(f, xs)),
        finite(sum(f, xs)),
        forall|j: int|
            0 <= j < 3 ==> finite(f(Op::Sub(#[trigger] xs[j], mean(f, xs)))) && finite(
                f(Op::Square(f(Op::Sub(xs[j], mean(f, xs))))),
            ),
        finite(mean(f, squares(f, xs, mean(f, xs)))),
        finite(sum(f, squares(f, xs, mean(f, xs)))),
{
    let centre = mean(f, xs);
    let qs = squares(f, xs, centre);
    lemma_sum_of_three(f, xs);
    lemma_sum_of_three(f, qs);
    let count = f(Op::Count(3));
    assert(finite(count));
    assert(finite(f(Op::Sqrt(mean(f, qs)))));
    assert(finite(mean(f, qs)));
    assert(finite(f(Op::Div(sum(f, qs), count))));
    assert(finite(sum(f, qs)));
    let t2 = f(Op::Add(f(Op::Add(ZERO, qs[0])), qs[1]));
    assert(finite(f(Op::Add(t2, qs[2]))));
    assert(finite(t2) && finite(qs[2]));
    assert(finite(f(Op::Add(ZERO, qs[0]))) && finite(qs[1]));
    assert(finite(qs[0]));
    assert forall|j: int| 0 <= j < 3 implies finite(f(Op::Sub(#[trigger] xs[j], centre)))
        && finite(f(Op::Square(f(Op::Sub(xs[j], centre))))) && finite(xs[j]) && finite(
        centre,
    ) by {
        assert(qs[j] == f(Op::Square(f(Op::Sub(xs[j], centre)))));
        assert(finite(qs[j]));
    }
    assert(finite(xs[0]) && finite(xs[1]) && finite(xs[2]));
    assert(finite(f(Op::Div(sum(f, xs), count))));
}

/// The distance of a number from the mean of all, as a number.
pub open spec fn distance(f: Arith, xs: Seq<Real>, j: int) -> real {
    number(f(Op::Sub(xs[j], mean(f, xs))))
}

/// A distance from a centre within twice the reach, but for rounding.
proof fn lemma_distance_rounded(f: Arith, x: Real, centre: Real, reach: real)
    requires
        rounds_sums(f),
        finite(f(Op::Sub(x, centre))),
        size(number(x)) <= reach,
        size(number(centre)) <= 2 as real * reach,
    ensures
        size(number(f(Op::Sub(x, centre))) - (number(x) - number(centre))) <= 3 as real * ((
        2 as real * roundoff()) * reach),
{
    lemma_roundoff();
    let u = roundoff();
    let v = 2 as real * u;
    let exact = number(x) - number(centre);
    assert(v * (3 as real * reach) == 3 as real * (v * reach)) by (nonlinear_arith);
    lemma_rounded(number(f(Op::Sub(x, centre))), exact, u);
    lemma_scaled(size(exact), 3 as real * reach, v);
}

/// The mean of three numbers, and their distances from it, but for rounding.
pub proof fn lemma_mean_of_three(f: Arith, xs: Seq<Real>, reach: real)
    requires
        rounds_sums(f),
        rounds_quotients(f),
        rounds_squares_and_roots(f),
        counts_exactly(f),
        xs.len() == 3,
        spreads_regularly(f, xs),
        size(number(xs[0])) <= reach,
        size(number(xs[1])) <= reach,
        size(number(xs[2])) <= reach,
    ensures
        ({
            let centre = number(mean(f, xs));
            let v = 2 as real * roundoff();
            &&& size(
                3 as real * centre - (number(xs[0]) + number(xs[1]) + number(xs[2])),
            ) <= 12 as real * (v * reach)
            &&& size(centre) <= 2 as real * reach
            &&& forall|j: int|
                0 <= j < 3 ==> size(
                    #[trigger] distance(f, xs, j) - (number(xs[j]) - centre),
                ) <= 3 as real * (v * reach)
        }),
{
    lemma_deviation_finite(f, xs);
    lemma_sum_of_three(f, xs);
    lemma_roundoff();
    lemma_number_order(ZERO, ZERO);
    let u = roundoff();
    let v = 2 as real * u;
    let count = f(Op::Count(3));
    let centre = mean(f, xs);
    let s1 = f(Op::Add(ZERO, xs[0]));
    let s2 = f(Op::Add(s1, xs[1]));
    let s3 = f(Op::Add(s2, xs[2]));
    assert(finite(s3));
    assert(finite(s2));
    assert(finite(s1));
    lemma_rounded(number(s1), number(xs[0]), u);
    lemma_rounded(number(s2), number(s1) + number(xs[1]), u);
    lemma_rounded(number(s3), number(s2) + number(xs[2]), u);
    assert(centre == f(Op::Div(s3, count)));
    assert(number(count) == 3 as real);
    let m = number(centre);
    lemma_size(m, 3 as real);
    assert(u * size(m) * size(3 as real) == u * (size(m) * size(3 as real))) by (nonlinear_arith);
    lemma_rounded(m * 3 as real, number(s3), u);
    lemma_mean_rounded(
        number(xs[0]),
        number(xs[1]),
        number(xs[2]),
        number(s1),
        number(s2),
        number(s3),
        m,
        reach,
        v,
    );
    assert forall|j: int| 0 <= j < 3 implies size(
        #[trigger] distance(f, xs, j) - (number(xs[j]) - m),
    ) <= 3 as real * (v * reach) by {
        assert(finite(f(Op::Sub(xs[j], centre))));
        assert(size(number(xs[j])) <= reach);
        lemma_distance_rounded(f, xs[j], centre, reach);
    }
}

/// The deviation of three numbers, squared, against their squared distances from the mean.
pub proof fn lemma_root_of_three(f: Arith, xs: Seq<Real>)
    requires
        rounds_sums(f),
        rounds_quotients(f),
        rounds_squares_and_roots(f),
        counts_exactly(f),
        xs.len() == 3,
        spreads_regularly(f, xs),
    ensures
        ({
            let root = number(deviation(f, xs));
            let v = 2 as real * roundoff();
            let (d0, d1, d2) = (distance(f, xs, 0), distance(f, xs, 1), distance(f, xs, 2));
            let total = d0 * d0 + d1 * d1 + d2 * d2;
            &&& root >= 0 as real
            &&& close(3 as real * (root * root), total, 9 as real * (v * total))
            &&& total <= 4 as real * (root * root)
            &&& size(d0) <= 2 as real * root
            &&& size(d1) <= 2 as real * root
            &&& size(d2) <= 2 as real * root
        }),
{
    lemma_deviation_finite(f, xs);
    lemma_roundoff();
    lemma_number_order(ZERO, ZERO);
    let u = roundoff();
    let v = 2 as real * u;
    let centre = mean(f, xs);
    let qs = squares(f, xs, centre);
    lemma_sum_of_three(f, qs);
    let count = f(Op::Count(3));
    let (d0, d1, d2) = (distance(f, xs, 0), distance(f, xs, 1), distance(f, xs, 2));
    lemma_square_rounded(f, xs, 0);
    lemma_square_rounded(f, xs, 1);
    lemma_square_rounded(f, xs, 2);
    let t1 = f(Op::Add(ZERO, qs[0]));
    let t2 = f(Op::Add(t1, qs[1]));
    let t3 = f(Op::Add(t2, qs[2]));
    assert(finite(t3));
    assert(finite(t2));
    assert(finite(t1));
    lemma_rounded(number(t1), number(qs[0]), u);
    lemma_rounded(number(t2), number(t1) + number(qs[1]), u);
    lemma_rounded(number(t3), number(t2) + number(qs[2]), u);
    let mq = mean(f, qs);
    assert(mq == f(Op::Div(t3, count)));
    assert(number(count) == 3 as real);
    let m = number(mq);
    lemma_size(m, 3 as real);
    assert(u * size(m) * size(3 as real) == u * (size(m) * size(3 as real))) by (nonlinear_arith);
    lemma_rounded(m * 3 as real, number(t3), u);
    assert(deviation(f, xs) == f(Op::Sqrt(mq)));
    let root = number(deviation(f, xs));
    let rr = root * root;
    assert(root >= 0 as real);
    assert(close(rr, m, 2 as real * (v * rr))) by {
        lemma_product_sign(root, root);
        lemma_product_sign(u, rr);
        let ur = u * rr;
        lemma_product_sign(u, ur);
        lemma_scaled(u, 1 as real, ur);
        assert(rr * (1 as real - u) * (1 as real - u) == rr - 2 as real * ur + u * ur)
            by (nonlinear_arith)
            requires
                ur == u * rr,
        ;
        assert(rr * (1 as real + u) * (1 as real + u) == rr + 2 as real * ur + u * ur)
            by (nonlinear_arith)
            requires
                ur == u * rr,
        ;
        assert(v * rr == 2 as real * ur) by (nonlinear_arith)
            requires
                v == 2 as real * u,
                ur == u * rr,
        ;
    }
    lemma_root_rounded(
        d0,
        d1,
        d2,
        number(qs[0]),
        number(qs[1]),
        number(qs[2]),
        number(t1),
        number(t2),
        number(t3),
        m,
        root,
        v,
    );
}

proof fn lemma_square_rounded(f: Arith, xs: Seq<Real>, j: int)
    requires
        rounds_squares_and_roots(f),
        0 <= j < xs.len(),
        spreads_regularly(f, xs),
        finite(squares(f, xs, mean(f, xs))[j]),
    ensures
        ({
            let q = number(squares(f, xs, mean(f, xs))[j]);
            let d = distance(f, xs, j);
            let v = 2 as real * roundoff();
            q >= 0 as real && close(q, d * d, v * (d * d))
        }),
{
    lemma_roundoff();
    let w = f(Op::Sub(xs[j], mean(f, xs)));
    assert(normal(f(Op::Square(w))) || zero(w));
    let d = distance(f, xs, j);
    lemma_size(d, d);
    lemma_rounded(number(f(Op::Square(w))), d * d, roundoff());
}

/// Standard deviations of three numbers each, which differ by the same shift but for errors
/// of up to `slip`, are the same but for such errors and rounding.
proof fn lemma_deviations_close(
    f: Arith,
    xs: Seq<Real>,
    ys: Seq<Real>,
    shift: real,
    slip: real,
    reach: real,
)
    requires
        rounds_sums(f),
        rounds_quotients(f),
        rounds_squares_and_roots(f),
        counts_exactly(f),
        xs.len() == 3,
        ys.len() == 3,
        spreads_regularly(f, xs),
        spreads_regularly(f, ys),
        forall|j: int|
            0 <= j < 3 ==> size(number(#[trigger] xs[j])) <= reach && size(number(ys[j])) <= reach
                && size(number(ys[j]) - number(xs[j]) - shift) <= slip,
    ensures
        size(number(deviation(f, ys)) - number(deviation(f, xs))) <= 4 as real * slip
            + 300 as real * (roundoff() * reach),
{
    let u = roundoff();
    let v = 2 as real * u;
    lemma_roundoff();
    assert(size(number(xs[0])) <= reach && size(number(xs[1])) <= reach && size(number(xs[2]))
        <= reach);
    let w = v * reach;
    assert(w == 2 as real * (u * reach)) by (nonlinear_arith)
        requires
            v == 2 as real * u,
            w == v * reach,
    ;
    lemma_product_sign(v, reach);
    lemma_mean_of_three(f, xs, reach);
    lemma_mean_of_three(f, ys, reach);
    lemma_root_of_three(f, xs);
    lemma_root_of_three(f, ys);
    let delta = 2 as real * slip + 14 as real * w;
    let (mx, my) = (number(mean(f, xs)), number(mean(f, ys)));
    assert(size(number(ys[0]) - number(xs[0]) - shift) <= slip);
    assert(size(number(ys[1]) - number(xs[1]) - shift) <= slip);
    assert(size(number(ys[2]) - number(xs[2]) - shift) <= slip);
    lemma_means_shifted(
        number(xs[0]),
        number(xs[1]),
        number(xs[2]),
        number(ys[0]),
        number(ys[1]),
        number(ys[2]),
        mx,
        my,
        shift,
        slip,
        w,
    );
    lemma_distance_close(f, xs, ys, 0, shift, slip, reach);
    lemma_distance_close(f, xs, ys, 1, shift, slip, reach);
    lemma_distance_close(f, xs, ys, 2, shift, slip, reach);
    let (d0, d1, d2) = (distance(f, xs, 0), distance(f, xs, 1), distance(f, xs, 2));
    let (e0, e1, e2) = (distance(f, ys, 0), distance(f, ys, 1), distance(f, ys, 2));
    let (d, e) = (number(deviation(f, xs)), number(deviation(f, ys)));
    lemma_roots_close(d0, d1, d2, e0, e1, e2, d, e, delta, v);
    lemma_root_small(d0, d1, d2, d, reach, v);
    lemma_root_small(e0, e1, e2, e, reach, v);
    lemma_scaled(d + e, 10 as real * reach, v);
    assert(v * (10 as real * reach) == 10 as real * (v * reach)) by (nonlinear_arith);
}

proof fn lemma_distance_close(
    f: Arith,
    xs: Seq<Real>,
    ys: Seq<Real>,
    j: int,
    shift: real,
    slip: real,
    reach: real,
)
    requires
        ({
            let w = (2 as real * roundoff()) * reach;
            let (mx, my) = (number(mean(f, xs)), number(mean(f, ys)));
            &&& size(number(xs[j])) <= reach
            &&& size(number(ys[j])) <= reach
            &&& size(mx) <= 2 as real * reach
            &&& size(my) <= 2 as real * reach
            &&& size(number(ys[j]) - number(xs[j]) - shift) <= slip
            &&& size(my - mx - shift) <= slip + 8 as real * w
            &&& size(distance(f, xs, j) - (number(xs[j]) - mx)) <= 3 as real * w
            &&& size(distance(f, ys, j) - (number(ys[j]) - my)) <= 3 as real * w
        }),
    ensures
        ({
            let w = (2 as real * roundoff()) * reach;
            &&& size(distance(f, ys, j) - distance(f, xs, j)) <= 2 as real * slip + 14 as real * w
            &&& size(distance(f, xs, j)) <= 4 as real * reach
            &&& size(distance(f, ys, j)) <= 4 as real * reach
        }),
{
    lemma_roundoff();
    let v = 2 as real * roundoff();
    lemma_scaled(v, 1 as real / 100 as real, reach);
    lemma_distances_close(
        number(xs[j]),
        number(ys[j]),
        number(mean(f, xs)),
        number(mean(f, ys)),
        distance(f, xs, j),
        distance(f, ys, j),
        shift,
        slip,
        v * reach,
    );
}

/// Both sets of amplitudes have a deviation or none has, and the deviations agree.
proof fn lemma_spread_kept(
    f: Arith,
    outcomes: Seq<(Seq<Real>, Real)>,
    from: Real,
    to: Real,
    shift: Real,
    slip: real,
    reach: real,
)
    requires
        rounds_sums(f),
        rounds_products(f),
        rounds_quotients(f),
        rounds_squares_and_roots(f),
        counts_exactly(f),
        outcomes.len() == 3,
        logs_differ(from, to, shift, slip),
        forall|j: int|
            0 <= j < outcomes.len() ==> converts(f, (#[trigger] outcomes[j]).0, from, reach)
                && converts(f, outcomes[j].0, to, reach),
        all_numbers(amplitudes(f, outcomes, from)) ==> spreads_regularly(
            f,
            amplitudes(f, outcomes, from),
        ),
        all_numbers(amplitudes(f, outcomes, to)) ==> spreads_regularly(
            f,
            amplitudes(f, outcomes, to),
        ),
    ensures
        ({
            let c = deviation(f, amplitudes(f, outcomes, from));
            let d = deviation(f, amplitudes(f, outcomes, to));
            &&& finite(c) <==> finite(d)
            &&& finite(c) ==> size(number(d) - number(c)) <= 4 as real * slip + 316 as real * (
            roundoff() * reach)
        }),
{
    let (c, d) = (amplitudes(f, outcomes, from), amplitudes(f, outcomes, to));
    let error = slip + 4 as real * (roundoff() * reach);
    assert forall|j: int| 0 <= j < 3 implies (finite(#[trigger] c[j]) <==> finite(d[j])) && (finite(
        c[j],
    ) ==> size(number(c[j])) <= reach && size(number(d[j])) <= reach && size(
        number(d[j]) - number(c[j]) - number(shift),
    ) <= error) by {
        assert(converts(f, outcomes[j].0, from, reach));
        lemma_amplitude_shifted(f, outcomes[j].0, from, to, shift, slip, reach);
    }
    if finite(deviation(f, c)) {
        lemma_deviation_finite(f, c);
        assert(finite(c[0]) && finite(c[1]) && finite(c[2]));
    }
    if finite(deviation(f, d)) {
        lemma_deviation_finite(f, d);
        assert(finite(c[0]) && finite(c[1]) && finite(c[2]));
    }
    if finite(deviation(f, c)) || finite(deviation(f, d)) {
        assert(finite(d[0]) && finite(d[1]) && finite(d[2]));
        assert(all_numbers(c) && all_numbers(d));
        lemma_deviations_close(f, c, d, number(shift), error, reach);
    }
}

/// A common exact factor of all fluxes and uncertainties adds to the logarithmic amplitude
/// of a fit what it adds to the logarithm of the unit, and leaves its spread as it is, but
/// for the error `slip` of the logarithms and rounding errors of amplitudes of size up to
/// `reach`. On both sides there is an amplitude, and a spread, or on none.
pub proof fn law_rescaling_shifts_amplitude<S>(
    f: Arith,
    g: Source<S>,
    h: Solver,
    s: S,
    k: Real,
    e: spec_fn(Real) -> bool,
    xs: Seq<Band>,
    ys: Seq<Band>,
    shift: Real,
    slip: real,
    reach: real,
)
    requires
        scales_exactly(f, k, e),
        keeps_shape(h),
        distinct(xs),
        complete(xs),
        all_fluxes_in(xs, e),
        rescales_all(f, k, xs, ys),
        shines(gathered(f, in_name_order(xs))),
        rounds_sums(f),
        rounds_products(f),
        rounds_quotients(f),
        rounds_squares_and_roots(f),
        counts_exactly(f),
        ({
            let us = in_name_order(xs);
            let unit = flux_unit(gathered(f, us));
            let (from, to) = (f(Op::Log10(unit)), f(Op::Log10(times(f, k, unit))));
            let outcomes = outcomes_of(f, g, h, s, us);
            &&& logs_differ(from, to, shift, slip)
            &&& converts(f, best_of(f, g, h, s, us), from, reach)
            &&& converts(f, best_of(f, g, h, s, us), to, reach)
            &&& forall|j: int|
                0 <= j < outcomes.len() ==> converts(f, (#[trigger] outcomes[j]).0, from, reach)
                    && converts(f, outcomes[j].0, to, reach)
            &&& all_numbers(amplitudes(f, outcomes, from)) ==> spreads_regularly(
                f,
                amplitudes(f, outcomes, from),
            )
            &&& all_numbers(amplitudes(f, outcomes, to)) ==> spreads_regularly(
                f,
                amplitudes(f, outcomes, to),
            )
        }),
    ensures
        ({
            let a = fit_result(f, g, h, s, in_name_order(xs));
            let b = fit_result(f, g, h, s, in_name_order(ys));
            a is Some ==> {
                &&& b is Some
                &&& a->0.loga is Some <==> b->0.loga is Some
                &&& a->0.loga is Some ==> size(
                    number(b->0.loga->0) - number(a->0.loga->0) - number(shift),
                ) <= slip + 4 as real * (roundoff() * reach)
                &&& a->0.loga_err is Some <==> b->0.loga_err is Some
                &&& a->0.loga_err is Some ==> size(
                    number(b->0.loga_err->0) - number(a->0.loga_err->0),
                ) <= 4 as real * slip + 316 as real * (roundoff() * reach)
            }
        }),
{
    law_rescaling_changes_log_unit_only(f, g, h, s, k, e, xs, ys);
    let us = in_name_order(xs);
    let unit = flux_unit(gathered(f, us));
    let (from, to) = (f(Op::Log10(unit)), f(Op::Log10(times(f, k, unit))));
    let outcomes = outcomes_of(f, g, h, s, us);
    if attempted(f, us) {
        let params = best_of(f, g, h, s, us);
        lemma_amplitude_shifted(f, params, from, to, shift, slip, reach);
        lemma_spread_kept(f, outcomes, from, to, shift, slip, reach);
    }
}

/// Every word encodes a finite number.
pub open spec fn all_numbers(xs: Seq<Real>) -> bool {
    forall|j: int| 0 <= j < xs.len() ==> finite(#[trigger] xs[j])
}

} // verus!
