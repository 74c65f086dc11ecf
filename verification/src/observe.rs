//! From light curves to normalised observations.

use vstd::prelude::*;
use vstd::seq_lib::group_to_multiset_ensures;

use crate::arith::{apply, implements, total, Arith, Op};
use crate::bands::{
    arranged, distinct, in_name_order, lemma_arrangement_exists, sort_bands, Band, BandData,
};
use crate::cost::SbplObs;
use crate::model::{band_frequency_hz, frequency, has_frequency};
use crate::word::{
    finite, greater, is_finite, less, lesser, lt, max, min, Real, INFINITY, NEG_INFINITY, ONE, ZERO,
};

verus! {

broadcast use group_to_multiset_ensures;

/// The unit of frequency in the model, 10^15 Hz.
pub const FREQUENCY_UNIT: Real = 0x430c_6bf5_2634_0000;

/// The observations of all bands, with what the bounds of the fit depend on.
#[derive(Debug)]
pub struct Gathered {
    /// The usable observations, band by band.
    pub observations: Vec<SbplObs>,
    /// The number of bands that are known and not empty.
    pub n_bands: usize,
    /// The earliest time of a usable observation.
    pub t_min: Real,
    /// The latest time of a usable observation.
    pub t_max: Real,
}

/// A band whose frequency is known has a flux and an uncertainty for each time.
pub open spec fn complete(bands: Seq<Band>) -> bool {
    forall|k: int|
        0 <= k < bands.len() && has_frequency((#[trigger] bands[k]).wavelength)
            ==> bands[k].data.times@.len() <= bands[k].data.values@.len()
            && bands[k].data.times@.len() <= bands[k].data.errors@.len()
}

/// Measurement `i` is finite throughout and its uncertainty is positive.
pub open spec fn usable(data: BandData, i: int) -> bool {
    &&& finite(data.times@[i])
    &&& finite(data.values@[i])
    &&& finite(data.errors@[i])
    &&& less(ZERO, data.errors@[i])
}

/// The usable ones among the first `n` measurements of a band of frequency `nu`.
pub open spec fn band_observations(f: Arith, nu: Real, data: BandData, n: nat) -> Seq<SbplObs>
    decreases n,
{
    if n == 0 {
        Seq::empty()
    } else {
        let before = band_observations(f, nu, data, (n - 1) as nat);
        if usable(data, n - 1) {
            before.push(
                SbplObs {
                    time: data.times@[n - 1],
                    nu_scaled: f(Op::Div(nu, FREQUENCY_UNIT)),
                    flux: data.values@[n - 1],
                    flux_err: data.errors@[n - 1],
                },
            )
        } else {
            before
        }
    }
}

/// The number of usable ones among the first `n` measurements.
pub open spec fn usable_count(data: BandData, n: nat) -> nat
    decreases n,
{
    if n == 0 {
        0
    } else {
        usable_count(data, (n - 1) as nat) + if usable(data, n - 1) {
            1nat
        } else {
            0
        }
    }
}

/// What a band contributes: nothing where its frequency is not known.
pub open spec fn contribution(f: Arith, band: Band) -> Seq<SbplObs> {
    match frequency(f, band.wavelength) {
        Some(nu) => band_observations(f, nu, band.data, band.data.times@.len()),
        None => Seq::empty(),
    }
}

/// How many observations a band contributes.
pub open spec fn contribution_count(band: Band) -> nat {
    if has_frequency(band.wavelength) {
        usable_count(band.data, band.data.times@.len())
    } else {
        0
    }
}

/// The contributions of the bands, one after the other.
pub open spec fn gathered(f: Arith, bands: Seq<Band>) -> Seq<SbplObs>
    decreases bands.len(),
{
    if bands.len() == 0 {
        Seq::empty()
    } else {
        gathered(f, bands.drop_last()) + contribution(f, bands.last())
    }
}

/// How many usable observations the bands hold.
pub open spec fn observation_count(bands: Seq<Band>) -> nat
    decreases bands.len(),
{
    if bands.len() == 0 {
        0
    } else {
        observation_count(bands.drop_last()) + contribution_count(bands.last())
    }
}

/// The frequency of the band is known and it has measurements.
pub open spec fn counts(band: Band) -> bool {
    has_frequency(band.wavelength) && band.data.times@.len() > 0
}

/// How many bands have a known frequency and measurements.
pub open spec fn band_count(bands: Seq<Band>) -> nat
    decreases bands.len(),
{
    if bands.len() == 0 {
        0
    } else {
        band_count(bands.drop_last()) + if counts(bands.last()) {
            1nat
        } else {
            0
        }
    }
}

/// The earliest time, or infinity.
pub open spec fn earliest(observations: Seq<SbplObs>) -> Real
    decreases observations.len(),
{
    if observations.len() == 0 {
        INFINITY
    } else {
        lesser(earliest(observations.drop_last()), observations.last().time)
    }
}

/// The latest time, or minus infinity.
pub open spec fn latest(observations: Seq<SbplObs>) -> Real
    decreases observations.len(),
{
    if observations.len() == 0 {
        NEG_INFINITY
    } else {
        greater(latest(observations.drop_last()), observations.last().time)
    }
}

/// The largest positive finite flux, or minus infinity.
pub open spec fn peak(observations: Seq<SbplObs>) -> Real
    decreases observations.len(),
{
    if observations.len() == 0 {
        NEG_INFINITY
    } else {
        let flux = observations.last().flux;
        let before = peak(observations.drop_last());
        if finite(flux) && less(ZERO, flux) {
            greater(before, flux)
        } else {
            before
        }
    }
}

/// What fluxes are divided by: the largest positive one, or one.
pub open spec fn flux_unit(observations: Seq<SbplObs>) -> Real {
    if less(ZERO, peak(observations)) {
        peak(observations)
    } else {
        ONE
    }
}

/// The observations with fluxes and uncertainties in the given unit.
pub open spec fn normalised(f: Arith, observations: Seq<SbplObs>, unit: Real) -> Seq<SbplObs> {
    Seq::new(
        observations.len(),
        |i: int|
            SbplObs {
                flux: f(Op::Div(observations[i].flux, unit)),
                flux_err: f(Op::Div(observations[i].flux_err, unit)),
                ..observations[i]
            },
    )
}

proof fn lemma_counts_remove(bands: Seq<Band>, j: int)
    requires
        0 <= j < bands.len(),
    ensures
        observation_count(bands) == observation_count(bands.remove(j)) + contribution_count(
            bands[j],
        ),
        band_count(bands) == band_count(bands.remove(j)) + if counts(bands[j]) {
            1nat
        } else {
            0
        },
    decreases bands.len(),
{
    if j == bands.len() - 1 {
        assert(bands.remove(j) == bands.drop_last());
    } else {
        lemma_counts_remove(bands.drop_last(), j);
        assert(bands.remove(j).drop_last() == bands.drop_last().remove(j));
        assert(bands.remove(j).last() == bands.last());
    }
}

proof fn lemma_counts_order_free(s: Seq<Band>, t: Seq<Band>)
    requires
        s.to_multiset() == t.to_multiset(),
    ensures
        observation_count(s) == observation_count(t),
        band_count(s) == band_count(t),
    decreases s.len(),
{
    assert(s.len() == s.to_multiset().len());
    assert(t.len() == t.to_multiset().len());
    if s.len() > 0 {
        let x = s.last();
        let n = s.len() - 1;
        assert(s.contains(x)) by {
            assert(s[n] == x);
        }
        assert(s.to_multiset().count(x) > 0);
        assert(t.to_multiset().count(x) > 0);
        assert(t.contains(x));
        let j = choose|j: int| 0 <= j < t.len() && t[j] == x;
        assert(s.remove(n) == s.drop_last());
        assert(s.remove(n).to_multiset() == t.remove(j).to_multiset());
        lemma_counts_order_free(s.drop_last(), t.remove(j));
        lemma_counts_remove(t, j);
    }
}

/// The numbers of usable observations and of bands with measurements are those of the
/// bands as they are handed over, in any order.
pub proof fn law_counts_order_free(bands: Seq<Band>)
    requires
        distinct(bands),
    ensures
        observation_count(in_name_order(bands)) == observation_count(bands),
        band_count(in_name_order(bands)) == band_count(bands),
{
    lemma_arrangement_exists(bands);
    lemma_counts_order_free(in_name_order(bands), bands);
}

/// Collects the usable observations, band by band in the order of their names.
pub fn gather<A: Fn(Op) -> Real>(bands: &Vec<Band>, alu: &A) -> (r: Gathered)
    requires
        total(*alu),
        distinct(bands@),
        complete(bands@),
    ensures
        r.observations@.len() == observation_count(bands@),
        r.n_bands == band_count(bands@),
        r.t_min == earliest(r.observations@),
        r.t_max == latest(r.observations@),
        forall|f: Arith| #[trigger]
            implements(*alu, f) ==> r.observations@ == gathered(f, in_name_order(bands@)),
{
    let order: Vec<usize> = sort_bands(bands);
    let ghost s = arranged(bands@, order@);
    let n: usize = order.len();
    let mut observations: Vec<SbplObs> = Vec::new();
    let mut n_bands: usize = 0;
    let mut t_min: Real = INFINITY;
    let mut t_max: Real = NEG_INFINITY;
    let mut k: usize = 0;
    while k < n
        invariant
            total(*alu),
            complete(bands@),
            s == arranged(bands@, order@),
            n == order.len(),
            forall|j: int| 0 <= j < n ==> (#[trigger] order@[j]) < bands.len(),
            k <= n,
            n_bands <= k,
            observations@.len() == observation_count(s.take(k as int)),
            n_bands == band_count(s.take(k as int)),
            t_min == earliest(observations@),
            t_max == latest(observations@),
            forall|f: Arith| #[trigger]
                implements(*alu, f) ==> observations@ == gathered(f, s.take(k as int)),
        decreases n - k,
    {
        let band: &Band = &bands[order[k]];
        let ghost base = observations@;
        proof {
            assert(s[k as int] == *band);
            assert(s.take(k + 1).drop_last() == s.take(k as int));
            assert(s.take(k + 1).last() == *band);
        }
        let known: Option<Real> = band_frequency_hz(band.wavelength, alu);
        if let Some(nu) = known {
            let m: usize = band.data.times.len();
            if m > 0 {
                n_bands = n_bands + 1;
            }
            let mut i: usize = 0;
            assert(base + Seq::<SbplObs>::empty() == base);
            while i < m
                invariant
                    total(*alu),
                    m == band.data.times@.len(),
                    m <= band.data.values@.len(),
                    m <= band.data.errors@.len(),
                    i <= m,
                    observations@.len() == base.len() + usable_count(band.data, i as nat),
                    t_min == earliest(observations@),
                    t_max == latest(observations@),
                    forall|f: Arith| #[trigger]
                        implements(*alu, f) ==> observations@ == base + band_observations(
                            f,
                            nu,
                            band.data,
                            i as nat,
                        ),
                decreases m - i,
            {
                let t: Real = band.data.times[i];
                let flux: Real = band.data.values[i];
                let flux_err: Real = band.data.errors[i];
                if is_finite(t) && is_finite(flux) && is_finite(flux_err) && lt(ZERO, flux_err) {
                    t_min = min(t_min, t);
                    t_max = max(t_max, t);
                    let nu_scaled: Real = apply(alu, Op::Div(nu, FREQUENCY_UNIT));
                    let o = SbplObs { time: t, nu_scaled, flux, flux_err };
                    let ghost before = observations@;
                    observations.push(o);
                    assert(observations@.drop_last() == before);
                    assert forall|f: Arith| #[trigger]
                        implements(*alu, f) implies observations@ == base + band_observations(
                        f,
                        nu,
                        band.data,
                        (i + 1) as nat,
                    ) by {
                        assert(before.push(o) == base + band_observations(
                            f,
                            nu,
                            band.data,
                            i as nat,
                        ).push(o));
                    }
                }
                i = i + 1;
            }
        } else {
            assert(base + Seq::<SbplObs>::empty() == base);
        }
        k = k + 1;
    }
    assert(s.take(n as int) == s);
    proof {
        law_counts_order_free(bands@);
    }
    Gathered { observations, n_bands, t_min, t_max }
}

/// Finds the unit of flux.
pub fn find_flux_unit(observations: &Vec<SbplObs>) -> (r: Real)
    ensures
        r == flux_unit(observations@),
{
    let n: usize = observations.len();
    let mut highest: Real = NEG_INFINITY;
    let mut i: usize = 0;
    while i < n
        invariant
            n == observations.len(),
            i <= n,
            highest == peak(observations@.take(i as int)),
        decreases n - i,
    {
        let flux: Real = observations[i].flux;
        if is_finite(flux) && lt(ZERO, flux) {
            highest = max(highest, flux);
        }
        assert(observations@.take(i + 1).drop_last() == observations@.take(i as int));
        i = i + 1;
    }
    assert(observations@.take(n as int) == observations@);
    if lt(ZERO, highest) {
        highest
    } else {
        ONE
    }
}

/// Divides fluxes and uncertainties by `unit`.
pub fn normalise<A: Fn(Op) -> Real>(observations: &Vec<SbplObs>, unit: Real, alu: &A) -> (r: Vec<
    SbplObs,
>)
    requires
        total(*alu),
    ensures
        r.len() == observations.len(),
        forall|f: Arith| #[trigger]
            implements(*alu, f) ==> r@ == normalised(f, observations@, unit),
{
    let n: usize = observations.len();
    let mut r: Vec<SbplObs> = Vec::new();
    let mut i: usize = 0;
    while i < n
        invariant
            total(*alu),
            n == observations.len(),
            i <= n,
            r.len() == i,
            forall|f: Arith| #[trigger]
                implements(*alu, f) ==> forall|j: int|
                    0 <= j < i ==> #[trigger] r@[j] == normalised(f, observations@, unit)[j],
        decreases n - i,
    {
        let o: SbplObs = observations[i];
        let flux: Real = apply(alu, Op::Div(o.flux, unit));
        let flux_err: Real = apply(alu, Op::Div(o.flux_err, unit));
        r.push(SbplObs { time: o.time, nu_scaled: o.nu_scaled, flux, flux_err });
        i = i + 1;
    }
    r
}

} // verus!
