//! The smoothly broken power law
//!
//!   F(t, nu) = 10^loga * nu^beta * tau^alpha1 * [(1 + tau^(1/D)) / 2]^((alpha2 - alpha1) * D)
//!
//! with tau = (t - t0) / tb, D = 10^logd and nu in units of 10^15 Hz.

use vstd::prelude::*;

use crate::arith::{apply, implements, total, Arith, Op};
use crate::word::{
    at_most, finite, is_finite, is_zero, le, less, lt, zero, Real, HALF, NAN, ONE, TEN, ZERO,
};

verus! {

/// The speed of light in angstrom per second.
pub const C_ANGSTROM_PER_SEC: Real = 0x43c4_cd62_42cb_27f4;

/// The frequency of a band in Hz: the speed of light over its effective wavelength,
/// where that is known, positive and finite.
pub open spec fn frequency(f: Arith, wavelength: Option<Real>) -> Option<Real> {
    match wavelength {
        Some(lambda) => if has_frequency(wavelength) {
            Some(f(Op::Div(C_ANGSTROM_PER_SEC, lambda)))
        } else {
            None
        },
        None => None,
    }
}

/// The wavelength is known, positive and finite.
pub open spec fn has_frequency(wavelength: Option<Real>) -> bool {
    wavelength matches Some(lambda) && finite(lambda) && less(ZERO, lambda)
}

/// The law at a point that it is defined for: `ratio` is tau.
pub open spec fn power_law(
    f: Arith,
    ratio: Real,
    nu_scaled: Real,
    alpha1: Real,
    alpha2: Real,
    beta: Real,
    logd: Real,
    loga: Real,
) -> Real {
    let d = f(Op::Pow(TEN, logd));
    let inner = f(Op::Mul(HALF, f(Op::Add(ONE, f(Op::Pow(ratio, f(Op::Div(ONE, d))))))));
    let spectral = f(Op::Pow(nu_scaled, beta));
    let rise = f(Op::Pow(ratio, alpha1));
    let turn = f(Op::Pow(inner, f(Op::Mul(f(Op::Sub(alpha2, alpha1)), d))));
    let amplitude = f(Op::Pow(TEN, loga));
    let flux = f(Op::Mul(f(Op::Mul(f(Op::Mul(amplitude, spectral)), rise)), turn));
    if finite(inner) && less(ZERO, inner) && finite(flux) {
        flux
    } else {
        NAN
    }
}

/// The model: not a number where break time or frequency is not positive, zero before
/// `t0`, and otherwise the power law of a finite non-zero tau.
pub open spec fn model(
    f: Arith,
    t: Real,
    nu_scaled: Real,
    alpha1: Real,
    alpha2: Real,
    beta: Real,
    logd: Real,
    loga: Real,
    tb: Real,
    t0: Real,
) -> Real {
    let tau = f(Op::Sub(t, t0));
    let ratio = f(Op::Div(tau, tb));
    if at_most(tb, ZERO) || at_most(nu_scaled, ZERO) {
        NAN
    } else if less(tau, ZERO) {
        ZERO
    } else if zero(ratio) || !finite(ratio) {
        NAN
    } else {
        power_law(f, ratio, nu_scaled, alpha1, alpha2, beta, logd, loga)
    }
}

/// The frequency of a band with the given effective wavelength in angstrom.
pub fn band_frequency_hz<A: Fn(Op) -> Real>(wavelength: Option<Real>, alu: &A) -> (r: Option<Real>)
    requires
        total(*alu),
    ensures
        r is Some <==> has_frequency(wavelength),
        forall|f: Arith| #[trigger] implements(*alu, f) ==> r == frequency(f, wavelength),
{
    let lambda: Real = match wavelength {
        Some(lambda) => lambda,
        None => return None,
    };
    if le(lambda, ZERO) || !is_finite(lambda) {
        return None;
    }
    Some(apply(alu, Op::Div(C_ANGSTROM_PER_SEC, lambda)))
}

/// Evaluates the model at the time `t` and the frequency `nu_scaled`.
pub fn sbpl_model<A: Fn(Op) -> Real>(
    t: Real,
    nu_scaled: Real,
    alpha1: Real,
    alpha2: Real,
    beta: Real,
    logd: Real,
    loga: Real,
    tb: Real,
    t0: Real,
    alu: &A,
) -> (r: Real)
    requires
        total(*alu),
    ensures
        finite(r) || r == NAN,
        at_most(tb, ZERO) || at_most(nu_scaled, ZERO) ==> r == NAN,
        forall|f: Arith| #[trigger]
            implements(*alu, f) ==> r == model(
                f,
                t,
                nu_scaled,
                alpha1,
                alpha2,
                beta,
                logd,
                loga,
                tb,
                t0,
            ),
{
    let tau: Real = apply(alu, Op::Sub(t, t0));
    if le(tb, ZERO) || le(nu_scaled, ZERO) {
        return NAN;
    }
    if lt(tau, ZERO) {
        return ZERO;
    }
    let ratio: Real = apply(alu, Op::Div(tau, tb));
    if is_zero(ratio) || !is_finite(ratio) {
        return NAN;
    }
    let term1: Real = apply(alu, Op::Pow(nu_scaled, beta));
    let term2: Real = apply(alu, Op::Pow(ratio, alpha1));
    let d: Real = apply(alu, Op::Pow(TEN, logd));
    let inverse: Real = apply(alu, Op::Div(ONE, d));
    let power: Real = apply(alu, Op::Pow(ratio, inverse));
    let sum: Real = apply(alu, Op::Add(ONE, power));
    let inner: Real = apply(alu, Op::Mul(HALF, sum));
    if !is_finite(inner) || le(inner, ZERO) {
        return NAN;
    }
    let drop: Real = apply(alu, Op::Sub(alpha2, alpha1));
    let exponent: Real = apply(alu, Op::Mul(drop, d));
    let term3: Real = apply(alu, Op::Pow(inner, exponent));
    let amplitude: Real = apply(alu, Op::Pow(TEN, loga));
    let product1: Real = apply(alu, Op::Mul(amplitude, term1));
    let product2: Real = apply(alu, Op::Mul(product1, term2));
    let result: Real = apply(alu, Op::Mul(product2, term3));
    if is_finite(result) {
        result
    } else {
        NAN
    }
}

} // verus!
