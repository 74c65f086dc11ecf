//! The result of a fit.

use vstd::prelude::*;

use crate::word::{finite, Real};

verus! {

/// Result of a fit to several bands.
#[derive(Clone, Copy, Debug)]
pub struct SbplResult {
    /// Temporal power-law index before the break.
    pub alpha1: Option<Real>,
    /// Temporal power-law index after the break.
    pub alpha2: Option<Real>,
    /// Spectral index.
    pub beta: Option<Real>,
    /// Decimal logarithm of the smoothness D of the break.
    pub logd: Option<Real>,
    /// Decimal logarithm of the flux normalisation, in physical units.
    pub loga: Option<Real>,
    /// Break time in days.
    pub tb: Option<Real>,
    /// Time zero-point in days.
    pub t0: Option<Real>,
    /// Standard deviation of `alpha1` across restarts.
    pub alpha1_err: Option<Real>,
    /// Standard deviation of `alpha2` across restarts.
    pub alpha2_err: Option<Real>,
    /// Standard deviation of `beta` across restarts.
    pub beta_err: Option<Real>,
    /// Standard deviation of `logd` across restarts.
    pub logd_err: Option<Real>,
    /// Standard deviation of `loga` across restarts.
    pub loga_err: Option<Real>,
    /// Standard deviation of `tb` across restarts.
    pub tb_err: Option<Real>,
    /// Standard deviation of `t0` across restarts.
    pub t0_err: Option<Real>,
    /// Chi squared per observation of the best fit, on normalised fluxes.
    pub reduced_chi2: Option<Real>,
    /// Number of observations used.
    pub n_obs: usize,
    /// Number of bands used.
    pub n_bands: usize,
}

/// What is reported of a number: nothing unless it is finite.
pub open spec fn reported(v: Real) -> Option<Real> {
    if finite(v) {
        Some(v)
    } else {
        None
    }
}

/// The value, if there is one, is finite.
pub open spec fn finite_if_any(v: Option<Real>) -> bool {
    v matches Some(x) ==> finite(x)
}

impl SbplResult {
    /// No value in the result is infinite or not a number.
    pub open spec fn all_finite(&self) -> bool {
        &&& finite_if_any(self.alpha1)
        &&& finite_if_any(self.alpha2)
        &&& finite_if_any(self.beta)
        &&& finite_if_any(self.logd)
        &&& finite_if_any(self.loga)
        &&& finite_if_any(self.tb)
        &&& finite_if_any(self.t0)
        &&& finite_if_any(self.alpha1_err)
        &&& finite_if_any(self.alpha2_err)
        &&& finite_if_any(self.beta_err)
        &&& finite_if_any(self.logd_err)
        &&& finite_if_any(self.loga_err)
        &&& finite_if_any(self.tb_err)
        &&& finite_if_any(self.t0_err)
        &&& finite_if_any(self.reduced_chi2)
    }

    /// The result that reports nothing but the counts.
    pub open spec fn nothing(n_obs: usize, n_bands: usize) -> SbplResult {
        SbplResult {
            alpha1: None,
            alpha2: None,
            beta: None,
            logd: None,
            loga: None,
            tb: None,
            t0: None,
            alpha1_err: None,
            alpha2_err: None,
            beta_err: None,
            logd_err: None,
            loga_err: None,
            tb_err: None,
            t0_err: None,
            reduced_chi2: None,
            n_obs,
            n_bands,
        }
    }

    /// The result that reports `params`, their spread `stds` and the cost, as far as they
    /// are finite.
    pub open spec fn of(
        params: Seq<Real>,
        stds: Seq<Real>,
        cost: Real,
        n_obs: usize,
        n_bands: usize,
    ) -> SbplResult {
        SbplResult {
            alpha1: reported(params[0]),
            alpha2: reported(params[1]),
            beta: reported(params[2]),
            logd: reported(params[3]),
            loga: reported(params[4]),
            tb: reported(params[5]),
            t0: reported(params[6]),
            alpha1_err: reported(stds[0]),
            alpha2_err: reported(stds[1]),
            beta_err: reported(stds[2]),
            logd_err: reported(stds[3]),
            loga_err: reported(stds[4]),
            tb_err: reported(stds[5]),
            t0_err: reported(stds[6]),
            reduced_chi2: reported(cost),
            n_obs,
            n_bands,
        }
    }

    /// A result without a fit.
    pub fn empty(n_obs: usize, n_bands: usize) -> (r: Self)
        ensures
            r == SbplResult::nothing(n_obs, n_bands),
    {
        SbplResult {
            alpha1: None,
            alpha2: None,
            beta: None,
            logd: None,
            loga: None,
            tb: None,
            t0: None,
            alpha1_err: None,
            alpha2_err: None,
            beta_err: None,
            logd_err: None,
            loga_err: None,
            tb_err: None,
            t0_err: None,
            reduced_chi2: None,
            n_obs,
            n_bands,
        }
    }
}

} // verus!
