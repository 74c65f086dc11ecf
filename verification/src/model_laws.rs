//! What holds of frequencies, of the model and of the cost. Where a law rests on facts of
//! the arithmetic, such as that a rounded sum does not fall when a term rises, these are
//! its premises.

use vstd::prelude::*;

use crate::arith::{Arith, Op};
use crate::cost::{
    chi2, cost, misfit, predictable, predicted, scaled_cost, slope, unscaled, SbplObs,
    ScaledSbplCost, GRADIENT_STEP, N_PARAMS, VARIANCE_FLOOR,
};
use crate::model::{frequency, has_frequency, model, C_ANGSTROM_PER_SEC};
use crate::reals::{lemma_chain_rounded, lemma_rounded, lemma_scaled, size};
use crate::rounding::{
    lemma_roundoff, normal, number, rounds_monotonically, rounds_products, rounds_quotients,
    roundoff, whole_product,
};
use crate::word::{
    at_most, clamped, finite, less, nan, zero, Real, HALF, INFINITY, NAN, ONE, TEN, ZERO,
};

verus! {

/// A positive number over a larger one is not larger.
pub open spec fn division_falls(f: Arith) -> bool {
    forall|c: Real, x: Real, y: Real|
        finite(c) && finite(x) && finite(y) && less(ZERO, c) && less(ZERO, x) && at_most(x, y)
            ==> at_most(#[trigger] f(Op::Div(c, y)), #[trigger] f(Op::Div(c, x)))
}

/// A longer wavelength never has a higher frequency.
pub proof fn law_frequency_falls(f: Arith, shorter: Real, longer: Real)
    requires
        division_falls(f),
        finite(shorter),
        finite(longer),
        less(ZERO, shorter),
        at_most(shorter, longer),
    ensures
        frequency(f, Some(shorter)) is Some,
        frequency(f, Some(longer)) is Some,
        at_most(frequency(f, Some(longer))->0, frequency(f, Some(shorter))->0),
{
    assert(at_most(
        f(Op::Div(C_ANGSTROM_PER_SEC, longer)),
        f(Op::Div(C_ANGSTROM_PER_SEC, shorter)),
    ));
}

/// A frequency is known exactly where the wavelength is known, finite and positive. It is
/// then the speed of light over the wavelength.
pub proof fn law_frequency_known(f: Arith, wavelength: Option<Real>)
    ensures
        frequency(f, wavelength) is Some <==> wavelength is Some && finite(wavelength->0) && less(
            ZERO,
            wavelength->0,
        ),
        has_frequency(wavelength) <==> frequency(f, wavelength) is Some,
        frequency(f, wavelength) matches Some(nu) ==> nu == f(
            Op::Div(C_ANGSTROM_PER_SEC, wavelength->0),
        ),
{
}

/// Frequency times wavelength is the speed of light, but for rounding.
pub proof fn law_frequency_of_numbers(f: Arith, wavelength: Real)
    requires
        rounds_quotients(f),
        finite(wavelength),
        less(ZERO, wavelength),
        normal(f(Op::Div(C_ANGSTROM_PER_SEC, wavelength))),
    ensures
        frequency(f, Some(wavelength)) is Some,
        ({
            let nu = number(frequency(f, Some(wavelength))->0);
            size(nu * number(wavelength) - number(C_ANGSTROM_PER_SEC)) <= roundoff() * size(nu)
                * size(number(wavelength))
        }),
{
}

/// For any pair of indices, with positive break time and frequency: before the start the
/// model is zero; after it, where tau, the bracket and the product are finite and tau and the
/// bracket positive, the model is the product of amplitude, spectrum, rise and turn. It is
/// no number exactly where one of these conditions fails.
pub proof fn law_model_by_cases(
    f: Arith,
    t: Real,
    nu_scaled: Real,
    alpha1: Real,
    alpha2: Real,
    beta: Real,
    logd: Real,
    loga: Real,
    tb: Real,
    t0: Real,
)
    ensures
        ({
            let flux = model(f, t, nu_scaled, alpha1, alpha2, beta, logd, loga, tb, t0);
            let elapsed = f(Op::Sub(t, t0));
            let tau = f(Op::Div(elapsed, tb));
            let d = f(Op::Pow(TEN, logd));
            let bracket = f(
                Op::Mul(HALF, f(Op::Add(ONE, f(Op::Pow(tau, f(Op::Div(ONE, d))))))),
            );
            let turn = f(Op::Pow(bracket, f(Op::Mul(f(Op::Sub(alpha2, alpha1)), d))));
            let amplitude = f(Op::Pow(TEN, loga));
            let spectrum = f(Op::Pow(nu_scaled, beta));
            let rise = f(Op::Pow(tau, alpha1));
            let product = f(
                Op::Mul(f(Op::Mul(f(Op::Mul(amplitude, spectrum)), rise)), turn),
            );
            let defined = finite(tau) && !zero(tau) && finite(bracket) && less(ZERO, bracket)
                && finite(product);
            &&& at_most(tb, ZERO) || at_most(nu_scaled, ZERO) ==> nan(flux)
            &&& !at_most(tb, ZERO) && !at_most(nu_scaled, ZERO) ==> {
                &&& less(elapsed, ZERO) ==> flux == ZERO
                &&& !less(elapsed, ZERO) && defined ==> flux == product
                &&& !less(elapsed, ZERO) && !defined ==> nan(flux)
            }
        }),
{
}

/// Where the model has a value after the start, it is as a number the product of amplitude,
/// spectrum, rise and turn, but for three rounding errors, twice over and a little more.
pub proof fn law_model_of_numbers(
    f: Arith,
    t: Real,
    nu_scaled: Real,
    alpha1: Real,
    alpha2: Real,
    beta: Real,
    logd: Real,
    loga: Real,
    tb: Real,
    t0: Real,
)
    requires
        rounds_products(f),
        !less(f(Op::Sub(t, t0)), ZERO),
        finite(model(f, t, nu_scaled, alpha1, alpha2, beta, logd, loga, tb, t0)),
        ({
            let tau = f(Op::Div(f(Op::Sub(t, t0)), tb));
            let d = f(Op::Pow(TEN, logd));
            let bracket = f(
                Op::Mul(HALF, f(Op::Add(ONE, f(Op::Pow(tau, f(Op::Div(ONE, d))))))),
            );
            let turn = f(Op::Pow(bracket, f(Op::Mul(f(Op::Sub(alpha2, alpha1)), d))));
            let amplitude = f(Op::Pow(TEN, loga));
            let spectrum = f(Op::Pow(nu_scaled, beta));
            let rise = f(Op::Pow(tau, alpha1));
            let one = f(Op::Mul(amplitude, spectrum));
            let two = f(Op::Mul(one, rise));
            &&& whole_product(f, amplitude, spectrum)
            &&& whole_product(f, one, rise)
            &&& whole_product(f, two, turn)
        }),
    ensures
        ({
            let tau = f(Op::Div(f(Op::Sub(t, t0)), tb));
            let d = f(Op::Pow(TEN, logd));
            let bracket = f(
                Op::Mul(HALF, f(Op::Add(ONE, f(Op::Pow(tau, f(Op::Div(ONE, d))))))),
            );
            let turn = f(Op::Pow(bracket, f(Op::Mul(f(Op::Sub(alpha2, alpha1)), d))));
            let exact = number(f(Op::Pow(TEN, loga))) * number(f(Op::Pow(nu_scaled, beta)))
                * number(f(Op::Pow(tau, alpha1))) * number(turn);
            let flux = model(f, t, nu_scaled, alpha1, alpha2, beta, logd, loga, tb, t0);
            size(number(flux) - exact) <= 8 as real * roundoff() * size(exact)
        }),
{
    assert(!finite(NAN));
    let tau = f(Op::Div(f(Op::Sub(t, t0)), tb));
    let d = f(Op::Pow(TEN, logd));
    let bracket = f(Op::Mul(HALF, f(Op::Add(ONE, f(Op::Pow(tau, f(Op::Div(ONE, d))))))));
    let turn = f(Op::Pow(bracket, f(Op::Mul(f(Op::Sub(alpha2, alpha1)), d))));
    let amplitude = f(Op::Pow(TEN, loga));
    let spectrum = f(Op::Pow(nu_scaled, beta));
    let rise = f(Op::Pow(tau, alpha1));
    let one = f(Op::Mul(amplitude, spectrum));
    let two = f(Op::Mul(one, rise));
    let flux = f(Op::Mul(two, turn));
    let u = roundoff();
    lemma_roundoff();
    let (a, b, c, e) = (number(amplitude), number(spectrum), number(rise), number(turn));
    lemma_rounded(number(one), a * b, u);
    lemma_rounded(number(two), number(one) * c, u);
    lemma_rounded(number(flux), number(two) * e, u);
    lemma_chain_rounded(a * b, number(one), c, number(two), 2 as real * u, 2 as real * u);
    lemma_chain_rounded(
        a * b * c,
        number(two),
        e,
        number(flux),
        4 as real * u + u / 2 as real,
        2 as real * u,
    );
    let exact = a * b * c * e;
    lemma_scaled(4 as real * u + u / 2 as real + 2 as real * u + u / 2 as real, 8 as real * u, size(exact));
}

/// Time enters the model only through its distance from the zero-point.
pub proof fn law_model_sees_elapsed_time(
    f: Arith,
    t: Real,
    t0: Real,
    u: Real,
    u0: Real,
    nu_scaled: Real,
    alpha1: Real,
    alpha2: Real,
    beta: Real,
    logd: Real,
    loga: Real,
    tb: Real,
)
    requires
        f(Op::Sub(t, t0)) == f(Op::Sub(u, u0)),
    ensures
        model(f, t, nu_scaled, alpha1, alpha2, beta, logd, loga, tb, t0) == model(
            f,
            u,
            nu_scaled,
            alpha1,
            alpha2,
            beta,
            logd,
            loga,
            tb,
            u0,
        ),
{
}

/// The model at a time is the model at the elapsed time with the zero-point at zero,
/// where taking zero away changes nothing.
pub proof fn law_model_shifts_to_zero(
    f: Arith,
    t: Real,
    t0: Real,
    nu_scaled: Real,
    alpha1: Real,
    alpha2: Real,
    beta: Real,
    logd: Real,
    loga: Real,
    tb: Real,
)
    requires
        f(Op::Sub(f(Op::Sub(t, t0)), ZERO)) == f(Op::Sub(t, t0)),
    ensures
        model(f, t, nu_scaled, alpha1, alpha2, beta, logd, loga, tb, t0) == model(
            f,
            f(Op::Sub(t, t0)),
            nu_scaled,
            alpha1,
            alpha2,
            beta,
            logd,
            loga,
            tb,
            ZERO,
        ),
{
}

/// The arithmetic of zero and one: a finite number less itself is zero, zero times a
/// finite number is zero, one over infinity is zero, a power of exponent zero or of base
/// one is one, a factor of one changes nothing, and one half of one and one is one. Of the
/// words that encode no number only those that products and quotients give are exponents
/// of one.
pub open spec fn respects_units(f: Arith) -> bool {
    &&& forall|x: Real| finite(x) ==> zero(#[trigger] f(Op::Sub(x, x)))
    &&& forall|z: Real, x: Real| zero(z) && finite(x) ==> zero(#[trigger] f(Op::Mul(z, x)))
    &&& zero(f(Op::Div(ONE, INFINITY)))
    &&& forall|x: Real, z: Real| zero(z) && !nan(x) ==> #[trigger] f(Op::Pow(x, z)) == ONE
    &&& forall|y: Real| !nan(y) ==> #[trigger] f(Op::Pow(ONE, y)) == ONE
    &&& forall|x: Real, y: Real| #[trigger] f(Op::Pow(ONE, f(Op::Mul(x, y)))) == ONE
    &&& forall|x: Real, y: Real| #[trigger] f(Op::Pow(ONE, f(Op::Div(x, y)))) == ONE
    &&& forall|x: Real| finite(x) ==> #[trigger] f(Op::Mul(x, ONE)) == x
    &&& f(Op::Mul(HALF, f(Op::Add(ONE, ONE)))) == ONE
}

/// Powers of ten are finite or infinite, and one half of one plus a finite power of a
/// positive number is finite and positive.
pub open spec fn bounds_powers(f: Arith) -> bool {
    &&& forall|x: Real|
        finite(x) ==> finite(#[trigger] f(Op::Pow(TEN, x))) || f(Op::Pow(TEN, x)) == INFINITY
    &&& forall|x: Real, y: Real|
        less(ZERO, x) && finite(#[trigger] f(Op::Pow(x, y))) ==> {
            let half = f(Op::Mul(HALF, f(Op::Add(ONE, f(Op::Pow(x, y))))));
            finite(half) && less(ZERO, half)
        }
}

/// With equal indices there is no break: after the start the model is amplitude times
/// spectrum times a single power of time, whatever the smoothness.
pub proof fn law_equal_indices_have_no_break(
    f: Arith,
    t: Real,
    nu_scaled: Real,
    alpha: Real,
    beta: Real,
    logd: Real,
    loga: Real,
    tb: Real,
    t0: Real,
)
    requires
        respects_units(f),
        bounds_powers(f),
        finite(alpha),
        finite(logd),
        less(ZERO, tb),
        less(ZERO, nu_scaled),
        ({
            let tau = f(Op::Sub(t, t0));
            let ratio = f(Op::Div(tau, tb));
            let d = f(Op::Pow(TEN, logd));
            &&& less(ZERO, tau)
            &&& less(ZERO, ratio)
            &&& finite(ratio)
            &&& finite(f(Op::Pow(ratio, f(Op::Div(ONE, d)))))
        }),
        finite(
            f(
                Op::Mul(
                    f(Op::Mul(f(Op::Pow(TEN, loga)), f(Op::Pow(nu_scaled, beta)))),
                    f(Op::Pow(f(Op::Div(f(Op::Sub(t, t0)), tb)), alpha)),
                ),
            ),
        ),
    ensures
        model(f, t, nu_scaled, alpha, alpha, beta, logd, loga, tb, t0) == f(
            Op::Mul(
                f(Op::Mul(f(Op::Pow(TEN, loga)), f(Op::Pow(nu_scaled, beta)))),
                f(Op::Pow(f(Op::Div(f(Op::Sub(t, t0)), tb)), alpha)),
            ),
        ),
{
    let ratio = f(Op::Div(f(Op::Sub(t, t0)), tb));
    let d = f(Op::Pow(TEN, logd));
    let inner = f(Op::Mul(HALF, f(Op::Add(ONE, f(Op::Pow(ratio, f(Op::Div(ONE, d))))))));
    let drop = f(Op::Sub(alpha, alpha));
    assert(zero(drop));
    if finite(d) {
        assert(zero(f(Op::Mul(drop, d))));
    } else {
        assert(f(Op::Pow(ratio, f(Op::Div(ONE, INFINITY)))) == ONE);
        assert(inner == ONE);
    }
    assert(f(Op::Pow(inner, f(Op::Mul(drop, d)))) == ONE);
    let straight = f(
        Op::Mul(
            f(Op::Mul(f(Op::Pow(TEN, loga)), f(Op::Pow(nu_scaled, beta)))),
            f(Op::Pow(ratio, alpha)),
        ),
    );
    assert(f(Op::Mul(straight, ONE)) == straight);
}

/// `x` scaled by `k`.
pub open spec fn times(f: Arith, k: Real, x: Real) -> Real {
    f(Op::Mul(k, x))
}

/// The product is zero only where a factor is: it does not vanish by underflow.
pub open spec fn clear(f: Arith, x: Real, y: Real) -> bool {
    zero(f(Op::Mul(x, y))) ==> zero(x) || zero(y)
}

/// Scaling by `k` is exact on the words in `e`: it keeps zero and finiteness, goes through
/// products that do not vanish and through differences, and cancels in a quotient of
/// squares.
pub open spec fn carries_factor(f: Arith, k: Real, e: spec_fn(Real) -> bool) -> bool {
    &&& times(f, k, ZERO) == ZERO
    &&& forall|x: Real| e(x) ==> (finite(#[trigger] times(f, k, x)) <==> finite(x))
    &&& forall|x: Real, y: Real|
        e(x) && e(f(Op::Mul(x, y))) && clear(f, x, y) ==> #[trigger] f(
            Op::Mul(times(f, k, x), y),
        ) == times(
            f,
            k,
            f(Op::Mul(x, y)),
        )
    &&& forall|x: Real, y: Real|
        e(x) && e(y) ==> #[trigger] f(Op::Sub(times(f, k, x), times(f, k, y))) == times(
            f,
            k,
            f(Op::Sub(x, y)),
        )
    &&& forall|x: Real, y: Real|
        e(x) && e(y) ==> #[trigger] f(
            Op::Div(
                f(Op::Mul(times(f, k, x), times(f, k, x))),
                f(Op::Mul(times(f, k, y), times(f, k, y))),
            ),
        ) == f(Op::Div(f(Op::Mul(x, x)), f(Op::Mul(y, y))))
}

/// The squared uncertainty is so large that the floor does not change it.
pub open spec fn dwarfs_floor(f: Arith, err: Real) -> bool {
    f(Op::Add(f(Op::Mul(err, err)), VARIANCE_FLOOR)) == f(Op::Mul(err, err))
}

/// The time from the zero-point to the observation.
pub open spec fn elapsed(f: Arith, o: SbplObs, p: Seq<Real>) -> Real {
    f(Op::Sub(o.time, p[6]))
}

/// The factor of the model for the frequency of the observation.
pub open spec fn spectrum(f: Arith, o: SbplObs, p: Seq<Real>) -> Real {
    f(Op::Pow(o.nu_scaled, p[2]))
}

/// The factor of the model for the time before the break.
pub open spec fn rise(f: Arith, o: SbplObs, p: Seq<Real>) -> Real {
    f(Op::Pow(f(Op::Div(elapsed(f, o, p), p[5])), p[0]))
}

/// The factor of the model for the turn to the time after the break.
pub open spec fn turn(f: Arith, o: SbplObs, p: Seq<Real>) -> Real {
    let ratio = f(Op::Div(elapsed(f, o, p), p[5]));
    let d = f(Op::Pow(TEN, p[3]));
    let inner = f(Op::Mul(HALF, f(Op::Add(ONE, f(Op::Pow(ratio, f(Op::Div(ONE, d))))))));
    f(Op::Pow(inner, f(Op::Mul(f(Op::Sub(p[1], p[0])), d))))
}

/// Where the model is finite and not before the start, it is the product of its factors.
pub proof fn lemma_predicted_product(f: Arith, o: SbplObs, p: Seq<Real>)
    requires
        finite(predicted(f, o, p)),
    ensures
        less(elapsed(f, o, p), ZERO) ==> predicted(f, o, p) == ZERO,
        !less(elapsed(f, o, p), ZERO) ==> predicted(f, o, p) == f(
            Op::Mul(
                f(
                    Op::Mul(
                        f(Op::Mul(f(Op::Pow(TEN, p[4])), spectrum(f, o, p))),
                        rise(f, o, p),
                    ),
                ),
                turn(f, o, p),
            ),
        ),
{
    assert(!finite(NAN));
}

/// The words that the misfit of `o` goes through lie in `e`.
pub open spec fn passes_through(
    f: Arith,
    e: spec_fn(Real) -> bool,
    o: SbplObs,
    p: Seq<Real>,
) -> bool {
    let amplitude = f(Op::Pow(TEN, p[4]));
    let product1 = f(Op::Mul(amplitude, spectrum(f, o, p)));
    let product2 = f(Op::Mul(product1, rise(f, o, p)));
    &&& !less(elapsed(f, o, p), ZERO) ==> {
        &&& e(amplitude) && e(product1) && e(product2)
        &&& e(f(Op::Mul(product2, turn(f, o, p))))
        &&& clear(f, amplitude, spectrum(f, o, p))
        &&& clear(f, product1, rise(f, o, p))
        &&& clear(f, product2, turn(f, o, p))
    }
    &&& e(o.flux) && e(o.flux_err) && e(predicted(f, o, p))
    &&& e(f(Op::Sub(o.flux, predicted(f, o, p))))
}

/// The observation with flux and uncertainty scaled by `k`.
pub open spec fn rescaled_obs(f: Arith, k: Real, o: SbplObs) -> SbplObs {
    SbplObs { flux: times(f, k, o.flux), flux_err: times(f, k, o.flux_err), ..o }
}

/// The observations with fluxes and uncertainties scaled by `k`.
pub open spec fn rescaled(f: Arith, k: Real, observations: Seq<SbplObs>) -> Seq<SbplObs> {
    Seq::new(observations.len(), |i: int| rescaled_obs(f, k, observations[i]))
}

proof fn lemma_misfit_rescaled(
    f: Arith,
    k: Real,
    e: spec_fn(Real) -> bool,
    o: SbplObs,
    p: Seq<Real>,
    loga: Real,
)
    requires
        carries_factor(f, k, e),
        p.len() >= N_PARAMS,
        f(Op::Pow(TEN, loga)) == times(f, k, f(Op::Pow(TEN, p[4]))),
        passes_through(f, e, o, p),
        dwarfs_floor(f, o.flux_err),
        dwarfs_floor(f, times(f, k, o.flux_err)),
        finite(predicted(f, o, p)),
    ensures
        ({
            let o2 = rescaled_obs(f, k, o);
            let q = p.update(4, loga);
            finite(predicted(f, o2, q)) && misfit(f, o2, q) == misfit(f, o, p)
        }),
{
    let o2 = rescaled_obs(f, k, o);
    let q = p.update(4, loga);
    let (m, m2) = (predicted(f, o, p), predicted(f, o2, q));
    lemma_predicted_product(f, o, p);
    if !less(elapsed(f, o, p), ZERO) {
        let amplitude = f(Op::Pow(TEN, p[4]));
        let product1 = f(Op::Mul(amplitude, spectrum(f, o, p)));
        let product2 = f(Op::Mul(product1, rise(f, o, p)));
        let flux = f(Op::Mul(product2, turn(f, o, p)));
        assert(f(Op::Mul(times(f, k, amplitude), spectrum(f, o, p))) == times(f, k, product1));
        assert(f(Op::Mul(times(f, k, product1), rise(f, o, p))) == times(f, k, product2));
        assert(f(Op::Mul(times(f, k, product2), turn(f, o, p))) == times(f, k, flux));
        assert(finite(times(f, k, flux)));
        assert(m == flux);
    }
    assert(m2 == times(f, k, m));
    let residual = f(Op::Sub(o.flux, m));
    assert(f(Op::Sub(times(f, k, o.flux), times(f, k, m))) == times(f, k, residual));
    let (x, y) = (times(f, k, residual), times(f, k, o.flux_err));
    assert(f(Op::Div(f(Op::Mul(x, x)), f(Op::Mul(y, y)))) == f(
        Op::Div(f(Op::Mul(residual, residual)), f(Op::Mul(o.flux_err, o.flux_err))),
    ));
}

/// The factor `k` is exact for an observation, and its uncertainty dwarfs the floor under
/// the variance with it and without.
pub open spec fn factor_fits(
    f: Arith,
    k: Real,
    e: spec_fn(Real) -> bool,
    o: SbplObs,
    p: Seq<Real>,
) -> bool {
    &&& passes_through(f, e, o, p)
    &&& dwarfs_floor(f, o.flux_err)
    &&& dwarfs_floor(f, times(f, k, o.flux_err))
}

proof fn lemma_chi2_rescaled(
    f: Arith,
    k: Real,
    e: spec_fn(Real) -> bool,
    observations: Seq<SbplObs>,
    p: Seq<Real>,
    loga: Real,
)
    requires
        carries_factor(f, k, e),
        p.len() >= N_PARAMS,
        f(Op::Pow(TEN, loga)) == times(f, k, f(Op::Pow(TEN, p[4]))),
        forall|i: int|
            0 <= i < observations.len() ==> factor_fits(f, k, e, #[trigger] observations[i], p),
        predictable(f, observations, p),
    ensures
        chi2(f, rescaled(f, k, observations), p.update(4, loga)) == chi2(f, observations, p),
        predictable(f, rescaled(f, k, observations), p.update(4, loga)),
    decreases observations.len(),
{
    let (bright, q) = (rescaled(f, k, observations), p.update(4, loga));
    assert forall|i: int| 0 <= i < bright.len() implies finite(
        #[trigger] predicted(f, bright[i], q),
    ) by {
        assert(finite(predicted(f, observations[i], p)));
        lemma_misfit_rescaled(f, k, e, observations[i], p, loga);
    }
    if observations.len() > 0 {
        let n = observations.len() - 1;
        let before = observations.drop_last();
        assert forall|i: int| 0 <= i < before.len() implies finite(
            #[trigger] predicted(f, before[i], p),
        ) by {
            assert(finite(predicted(f, observations[i], p)));
        }
        lemma_chi2_rescaled(f, k, e, before, p, loga);
        assert(finite(predicted(f, observations[n], p)));
        lemma_misfit_rescaled(f, k, e, observations[n], p, loga);
        assert(bright.drop_last() == rescaled(f, k, before));
    }
}

/// A common factor of fluxes and uncertainties is absorbed by the amplitude: with the
/// amplitude scaled alike, the cost of the scaled observations is that of the observations.
/// The model must be finite, the factor exact on the words that occur, and the
/// uncertainties large enough that the floor under the variance does not matter.
pub proof fn law_cost_absorbs_factor(
    f: Arith,
    k: Real,
    e: spec_fn(Real) -> bool,
    observations: Seq<SbplObs>,
    p: Seq<Real>,
    loga: Real,
)
    requires
        carries_factor(f, k, e),
        p.len() >= N_PARAMS,
        f(Op::Pow(TEN, loga)) == times(f, k, f(Op::Pow(TEN, p[4]))),
        forall|i: int|
            0 <= i < observations.len() ==> factor_fits(f, k, e, #[trigger] observations[i], p),
        predictable(f, observations, p),
    ensures
        cost(f, rescaled(f, k, observations), p.update(4, loga)) == cost(f, observations, p),
{
    lemma_chi2_rescaled(f, k, e, observations, p, loga);
}

/// Each physical parameter depends on its own coordinate only.
pub proof fn law_unscaled_by_coordinate(
    f: Arith,
    lower: Seq<Real>,
    scale: Seq<Real>,
    xs: Seq<Real>,
    ys: Seq<Real>,
    i: int,
)
    requires
        xs.len() == ys.len(),
        0 <= i < xs.len(),
        xs[i] == ys[i],
    ensures
        unscaled(f, lower, scale, xs)[i] == unscaled(f, lower, scale, ys)[i],
{
}

/// A physical parameter does not fall as its coordinate rises.
pub proof fn law_unscaled_rises(
    f: Arith,
    lower: Seq<Real>,
    scale: Seq<Real>,
    xs: Seq<Real>,
    ys: Seq<Real>,
    i: int,
)
    requires
        rounds_monotonically(f),
        xs.len() == ys.len(),
        0 <= i < xs.len(),
        !nan(lower[i]),
        finite(scale[i]),
        at_most(ZERO, scale[i]),
        at_most(xs[i], ys[i]),
    ensures
        at_most(unscaled(f, lower, scale, xs)[i], unscaled(f, lower, scale, ys)[i]),
{
    let (u, v) = (clamped(xs[i], ZERO, ONE), clamped(ys[i], ZERO, ONE));
    assert(at_most(ZERO, u) && at_most(u, v) && at_most(v, ONE));
    let (x, y) = (f(Op::Mul(u, scale[i])), f(Op::Mul(v, scale[i])));
    assert(at_most(x, y));
    assert(at_most(f(Op::Add(lower[i], x)), f(Op::Add(lower[i], y))));
}

/// A step from a coordinate that is a step away from either face of the cube stays in the
/// cube and has a positive width.
pub open spec fn steps_within_cube(f: Arith) -> bool {
    forall|x: Real|
        at_most(GRADIENT_STEP, x) && at_most(x, f(Op::Sub(ONE, GRADIENT_STEP))) ==> {
            let up = #[trigger] f(Op::Add(x, GRADIENT_STEP));
            let down = f(Op::Sub(x, GRADIENT_STEP));
            &&& at_most(up, ONE)
            &&& at_most(ZERO, down)
            &&& less(ZERO, f(Op::Sub(up, down)))
        }
}

/// Away from the faces of the cube the gradient is the central difference: the costs a
/// step to either side, with all other coordinates held, over the distance between them.
pub proof fn law_gradient_is_central(f: Arith, problem: ScaledSbplCost, xs: Seq<Real>, i: int)
    requires
        steps_within_cube(f),
        0 <= i < xs.len(),
        at_most(GRADIENT_STEP, xs[i]),
        at_most(xs[i], f(Op::Sub(ONE, GRADIENT_STEP))),
    ensures
        ({
            let up = f(Op::Add(xs[i], GRADIENT_STEP));
            let down = f(Op::Sub(xs[i], GRADIENT_STEP));
            slope(f, problem, xs, i) == f(
                Op::Div(
                    f(
                        Op::Sub(
                            scaled_cost(f, problem, xs.update(i, up)),
                            scaled_cost(f, problem, xs.update(i, down)),
                        ),
                    ),
                    f(Op::Sub(up, down)),
                ),
            )
        }),
{
    let up = f(Op::Add(xs[i], GRADIENT_STEP));
    assert(at_most(up, ONE));
}

} // verus!
