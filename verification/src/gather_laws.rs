//! What a fit is made to: exactly the usable measurements of the bands whose frequency is
//! known, band by band in the order of their names, in the unit of the largest flux.

use vstd::prelude::*;
use vstd::seq_lib::group_to_multiset_ensures;

use crate::arith::{Arith, Op};
use crate::bands::{
    arranged, ascending, distinct, in_name_order, lemma_arrangement_exists, precedes, Band,
    BandData,
};
use crate::cost::SbplObs;
use crate::model::C_ANGSTROM_PER_SEC;
use crate::observe::{
    band_count, band_observations, contribution, gathered, normalised, observation_count,
    FREQUENCY_UNIT,
};
use crate::word::{finite, less, Real, ZERO};

verus! {

broadcast use group_to_multiset_ensures;

/// `idx` are, in ascending order, exactly those of the first `n` measurements whose time,
/// flux and uncertainty are finite and whose uncertainty is positive.
pub open spec fn picks(data: BandData, idx: Seq<int>, n: nat) -> bool {
    &&& forall|k: int| 0 <= k < idx.len() ==> 0 <= #[trigger] idx[k] < n
    &&& forall|k: int, l: int| 0 <= k < l < idx.len() ==> (#[trigger] idx[k]) < (#[trigger] idx[l])
    &&& forall|i: int|
        0 <= i < n ==> (#[trigger] idx.contains(i) <==> finite(data.times@[i]) && finite(
            data.values@[i],
        ) && finite(data.errors@[i]) && less(ZERO, data.errors@[i]))
}

proof fn lemma_picked(f: Arith, nu: Real, data: BandData, n: nat) -> (idx: Seq<int>)
    ensures
        picks(data, idx, n),
        band_observations(f, nu, data, n).len() == idx.len(),
        forall|k: int|
            0 <= k < idx.len() ==> #[trigger] band_observations(f, nu, data, n)[k] == (SbplObs {
                time: data.times@[idx[k]],
                nu_scaled: f(Op::Div(nu, FREQUENCY_UNIT)),
                flux: data.values@[idx[k]],
                flux_err: data.errors@[idx[k]],
            }),
    decreases n,
{
    if n == 0 {
        Seq::empty()
    } else {
        let m = (n - 1) as nat;
        let before = lemma_picked(f, nu, data, m);
        let good = finite(data.times@[n - 1]) && finite(data.values@[n - 1]) && finite(
            data.errors@[n - 1],
        ) && less(ZERO, data.errors@[n - 1]);
        let idx = if good {
            before.push(n - 1)
        } else {
            before
        };
        let (a, b) = (band_observations(f, nu, data, m), band_observations(f, nu, data, n));
        assert forall|i: int| 0 <= i < n implies (#[trigger] idx.contains(i) <==> finite(
            data.times@[i],
        ) && finite(data.values@[i]) && finite(data.errors@[i]) && less(
            ZERO,
            data.errors@[i],
        )) by {
            if i < m {
                assert(before.contains(i) <==> finite(data.times@[i]) && finite(data.values@[i])
                    && finite(data.errors@[i]) && less(ZERO, data.errors@[i]));
                if before.contains(i) {
                    let k = choose|k: int| 0 <= k < before.len() && before[k] == i;
                    assert(idx[k] == i);
                }
                if idx.contains(i) {
                    let k = choose|k: int| 0 <= k < idx.len() && idx[k] == i;
                    assert(before[k] == i);
                }
            } else if good {
                assert(idx[before.len() as int] == i);
            } else if idx.contains(i) {
                let k = choose|k: int| 0 <= k < idx.len() && idx[k] == i;
                assert(before[k] < m);
            }
        }
        assert forall|k: int| 0 <= k < idx.len() implies #[trigger] b[k] == (SbplObs {
            time: data.times@[idx[k]],
            nu_scaled: f(Op::Div(nu, FREQUENCY_UNIT)),
            flux: data.values@[idx[k]],
            flux_err: data.errors@[idx[k]],
        }) by {
            if k < before.len() {
                assert(b[k] == a[k]);
            }
        }
        idx
    }
}

/// A band with a known, finite and positive wavelength contributes one observation for each
/// measurement that is finite throughout with a positive uncertainty, in their order, with
/// its time, flux and uncertainty and the frequency of the band in units of 10^15 Hz. Any
/// other band contributes none.
pub proof fn law_contribution_is_usable(f: Arith, band: Band)
    ensures
        ({
            let known = band.wavelength is Some && finite(band.wavelength->0) && less(
                ZERO,
                band.wavelength->0,
            );
            let nu = f(Op::Div(C_ANGSTROM_PER_SEC, band.wavelength->0));
            let data = band.data;
            let obs = gathered(f, seq![band]);
            &&& !known ==> obs.len() == 0
            &&& known ==> exists|idx: Seq<int>|
                {
                    &&& #[trigger] picks(data, idx, data.times@.len())
                    &&& obs.len() == idx.len()
                    &&& forall|k: int|
                        0 <= k < idx.len() ==> {
                            let o = #[trigger] obs[k];
                            &&& o.time == data.times@[idx[k]]
                            &&& o.nu_scaled == f(Op::Div(nu, FREQUENCY_UNIT))
                            &&& o.flux == data.values@[idx[k]]
                            &&& o.flux_err == data.errors@[idx[k]]
                        }
                }
        }),
{
    let nu = f(Op::Div(C_ANGSTROM_PER_SEC, band.wavelength->0));
    let idx = lemma_picked(f, nu, band.data, band.data.times@.len());
    let one = seq![band];
    assert(one.drop_last() =~= Seq::<Band>::empty());
    assert(gathered(f, one.drop_last()) =~= Seq::<SbplObs>::empty());
    assert(gathered(f, one) =~= contribution(f, band));
}

/// Bands contribute one after the other: the observations of two lists of bands are those of
/// the first followed by those of the second, and bands with a known frequency and at least
/// one measurement, usable or not, are counted once each.
pub proof fn law_gathered_in_sequence(f: Arith, a: Seq<Band>, b: Seq<Band>, band: Band)
    ensures
        gathered(f, Seq::<Band>::empty()) == Seq::<SbplObs>::empty(),
        gathered(f, a + b) == gathered(f, a) + gathered(f, b),
        observation_count(a) == gathered(f, a).len(),
        band_count(Seq::<Band>::empty()) == 0,
        band_count(a + b) == band_count(a) + band_count(b),
        band_count(seq![band]) == if band.wavelength is Some && finite(band.wavelength->0) && less(
            ZERO,
            band.wavelength->0,
        ) && band.data.times@.len() > 0 {
            1nat
        } else {
            0
        },
    decreases b.len(),
{
    crate::fit_laws::law_gathered_sound(f, a);
    let one = seq![band];
    assert(one.drop_last() =~= Seq::<Band>::empty());
    assert(band_count(one.drop_last()) == 0);
    if b.len() == 0 {
        assert(a + b =~= a);
        assert(gathered(f, a) + gathered(f, b) =~= gathered(f, a));
    } else {
        law_gathered_in_sequence(f, a, b.drop_last(), band);
        assert((a + b).drop_last() =~= a + b.drop_last());
        assert((a + b).last() == b.last());
        assert(gathered(f, a + b) =~= gathered(f, a) + gathered(f, b));
    }
}

/// Normalising divides flux and uncertainty of each observation by the unit and leaves its
/// time and frequency.
pub proof fn law_normalised_by_unit(f: Arith, observations: Seq<SbplObs>, unit: Real, i: int)
    requires
        0 <= i < observations.len(),
    ensures
        normalised(f, observations, unit).len() == observations.len(),
        ({
            let (o, r) = (observations[i], normalised(f, observations, unit)[i]);
            &&& r.time == o.time
            &&& r.nu_scaled == o.nu_scaled
            &&& r.flux == f(Op::Div(o.flux, unit))
            &&& r.flux_err == f(Op::Div(o.flux_err, unit))
        }),
{
}

/// A name comes before another exactly where it is a proper beginning of it, or where at the
/// first character in which they differ it has the lesser code point.
pub proof fn law_names_are_lexicographic(a: Seq<char>, b: Seq<char>)
    ensures
        precedes(a, b) <==> exists|k: int|
            {
                &&& 0 <= k <= a.len() && k < b.len()
                &&& #[trigger] a.take(k) == b.take(k)
                &&& k == a.len() || (a[k] as int) < (b[k] as int)
            },
    decreases a.len(),
{
    if b.len() > 0 && a.len() > 0 && a[0] == b[0] {
        let (c, d) = (a.drop_first(), b.drop_first());
        law_names_are_lexicographic(c, d);
        if precedes(a, b) {
            let k = choose|k: int|
                {
                    &&& 0 <= k <= c.len() && k < d.len()
                    &&& #[trigger] c.take(k) == d.take(k)
                    &&& k == c.len() || (c[k] as int) < (d[k] as int)
                };
            assert forall|j: int| 0 <= j < k + 1 implies a[j] == b[j] by {
                if j > 0 {
                    assert(c.take(k)[j - 1] == d.take(k)[j - 1]);
                }
            }
            assert(a.take(k + 1) =~= b.take(k + 1));
        }
        if exists|k: int|
            {
                &&& 0 <= k <= a.len() && k < b.len()
                &&& #[trigger] a.take(k) == b.take(k)
                &&& k == a.len() || (a[k] as int) < (b[k] as int)
            } {
            let k = choose|k: int|
                {
                    &&& 0 <= k <= a.len() && k < b.len()
                    &&& #[trigger] a.take(k) == b.take(k)
                    &&& k == a.len() || (a[k] as int) < (b[k] as int)
                };
            assert(k > 0);
            assert forall|j: int| 0 <= j < k - 1 implies c[j] == d[j] by {
                assert(a.take(k)[j + 1] == b.take(k)[j + 1]);
            }
            assert(c.take(k - 1) =~= d.take(k - 1));
        }
    } else {
        if precedes(a, b) {
            assert(a.take(0) =~= b.take(0));
        }
        if exists|k: int|
            {
                &&& 0 <= k <= a.len() && k < b.len()
                &&& #[trigger] a.take(k) == b.take(k)
                &&& k == a.len() || (a[k] as int) < (b[k] as int)
            } {
            let k = choose|k: int|
                {
                    &&& 0 <= k <= a.len() && k < b.len()
                    &&& #[trigger] a.take(k) == b.take(k)
                    &&& k == a.len() || (a[k] as int) < (b[k] as int)
                };
            if k > 0 {
                assert(a.take(k)[0] == b.take(k)[0]);
            }
        }
    }
}

/// Arranging puts at each place the band that the order points at there.
pub proof fn law_arranged_in_order(bands: Seq<Band>, order: Seq<usize>, k: int)
    requires
        0 <= k < order.len(),
    ensures
        arranged(bands, order).len() == order.len(),
        arranged(bands, order)[k] == bands[order[k] as int],
{
}

/// Arranging bands of different names changes none of them, adds none and leaves none out,
/// and each name comes before all later ones.
pub proof fn law_arranged_by_name(bands: Seq<Band>)
    requires
        distinct(bands),
    ensures
        in_name_order(bands).to_multiset() == bands.to_multiset(),
        forall|i: int, j: int|
            0 <= i < j < in_name_order(bands).len() ==> precedes(
                (#[trigger] in_name_order(bands)[i]).name@,
                (#[trigger] in_name_order(bands)[j]).name@,
            ),
{
    lemma_arrangement_exists(bands);
    assert(ascending(in_name_order(bands)));
}

} // verus!
