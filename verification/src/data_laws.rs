//! What the result of a fit does not depend on: the order of the bands, bands and
//! measurements that cannot be used, and the unit of flux.

use vstd::prelude::*;
use vstd::seq_lib::group_to_multiset_ensures;

use crate::arith::{Arith, Op};
use crate::bands::{
    ascending, distinct, in_name_order, lemma_arrangement_exists, lemma_precedes_irreflexive,
    lemma_precedes_transitive, precedes, Band, BandData,
};
use crate::cost::{SbplObs, ScaledSbplCost};
use crate::fit::{fit_result, fitted};
use crate::model::frequency;
use crate::observe::{
    band_count, band_observations, contribution, contribution_count, counts, gathered,
    observation_count, usable, usable_count, FREQUENCY_UNIT,
};
use crate::refine::Solver;
use crate::result::SbplResult;
use crate::swarm::Source;
use crate::word::Real;

verus! {

broadcast use group_to_multiset_ensures;

/// `r` relates `x` to one of the bands.
pub open spec fn has_partner(x: Band, bands: Seq<Band>, r: spec_fn(Band, Band) -> bool) -> bool {
    exists|j: int| 0 <= j < bands.len() && r(x, #[trigger] bands[j])
}

/// `r` relates one of the bands to `y`.
pub open spec fn is_partner(bands: Seq<Band>, y: Band, r: spec_fn(Band, Band) -> bool) -> bool {
    exists|i: int| 0 <= i < bands.len() && r(#[trigger] bands[i], y)
}

/// `r` relates each band of `a` to some band of `b`, and some band of `a` to each of `b`.
pub open spec fn paired(a: Seq<Band>, b: Seq<Band>, r: spec_fn(Band, Band) -> bool) -> bool {
    &&& forall|i: int| 0 <= i < a.len() ==> has_partner(#[trigger] a[i], b, r)
    &&& forall|j: int| 0 <= j < b.len() ==> is_partner(a, #[trigger] b[j], r)
}

/// `r` relates only bands of the same name.
pub open spec fn keeps_names(r: spec_fn(Band, Band) -> bool) -> bool {
    forall|x: Band, y: Band| #[trigger] r(x, y) ==> x.name@ == y.name@
}

/// A band among others is among them in any arrangement.
pub proof fn lemma_same_members(a: Seq<Band>, b: Seq<Band>, x: Band)
    requires
        a.to_multiset() == b.to_multiset(),
        a.contains(x),
    ensures
        b.contains(x),
{
    assert(a.to_multiset().count(x) > 0);
    assert(b.to_multiset().count(x) > 0);
}

/// Rearranging the bands on either side leaves them paired.
pub proof fn lemma_paired_rearranged(
    a: Seq<Band>,
    b: Seq<Band>,
    c: Seq<Band>,
    d: Seq<Band>,
    r: spec_fn(Band, Band) -> bool,
)
    requires
        paired(a, b, r),
        a.to_multiset() == c.to_multiset(),
        b.to_multiset() == d.to_multiset(),
    ensures
        paired(c, d, r),
{
    assert forall|i: int| 0 <= i < c.len() implies has_partner(#[trigger] c[i], d, r) by {
        lemma_same_members(c, a, c[i]);
        let k = choose|k: int| 0 <= k < a.len() && a[k] == c[i];
        assert(has_partner(a[k], b, r));
        let j = choose|j: int| 0 <= j < b.len() && r(c[i], #[trigger] b[j]);
        assert(b.contains(b[j]));
        lemma_same_members(b, d, b[j]);
        let l = choose|l: int| 0 <= l < d.len() && d[l] == b[j];
        assert(r(c[i], d[l]));
    }
    assert forall|j: int| 0 <= j < d.len() implies is_partner(c, #[trigger] d[j], r) by {
        lemma_same_members(d, b, d[j]);
        let k = choose|k: int| 0 <= k < b.len() && b[k] == d[j];
        assert(is_partner(a, b[k], r));
        let i = choose|i: int| 0 <= i < a.len() && r(#[trigger] a[i], d[j]);
        assert(a.contains(a[i]));
        lemma_same_members(a, c, a[i]);
        let l = choose|l: int| 0 <= l < c.len() && c[l] == a[i];
        assert(r(c[l], d[j]));
    }
}

proof fn lemma_ascending_drop_last(a: Seq<Band>)
    requires
        ascending(a),
        a.len() > 0,
    ensures
        ascending(a.drop_last()),
{
    let u = a.drop_last();
    assert forall|k: int, l: int| 0 <= k < l < u.len() implies precedes(
        (#[trigger] u[k]).name@,
        (#[trigger] u[l]).name@,
    ) by {
        assert(u[k] == a[k] && u[l] == a[l]);
    }
}

/// Of bands in the order of their names the last ones are paired.
proof fn lemma_last_paired(a: Seq<Band>, b: Seq<Band>, r: spec_fn(Band, Band) -> bool)
    requires
        ascending(a),
        ascending(b),
        paired(a, b, r),
        keeps_names(r),
        a.len() > 0,
    ensures
        b.len() > 0,
        r(a.last(), b.last()),
{
    let n = a.len() - 1;
    assert(has_partner(a[n], b, r));
    let m = b.len() - 1;
    let j = choose|j: int| 0 <= j < b.len() && r(a[n], #[trigger] b[j]);
    assert(is_partner(a, b[m], r));
    let i = choose|i: int| 0 <= i < a.len() && r(#[trigger] a[i], b[m]);
    if j < m {
        assert(precedes(b[j].name@, b[m].name@));
        lemma_precedes_irreflexive(a[n].name@);
        if i < n {
            assert(precedes(a[i].name@, a[n].name@));
            lemma_precedes_transitive(a[n].name@, a[i].name@, a[n].name@);
        }
    }
}

proof fn lemma_paired_drop_last(a: Seq<Band>, b: Seq<Band>, r: spec_fn(Band, Band) -> bool)
    requires
        ascending(a),
        ascending(b),
        paired(a, b, r),
        keeps_names(r),
        a.len() > 0,
        b.len() > 0,
        r(a.last(), b.last()),
    ensures
        paired(a.drop_last(), b.drop_last(), r),
{
    let n = a.len() - 1;
    let m = b.len() - 1;
    let (u, v) = (a.drop_last(), b.drop_last());
    assert forall|k: int| 0 <= k < u.len() implies has_partner(#[trigger] u[k], v, r) by {
        assert(has_partner(a[k], b, r));
        let l = choose|l: int| 0 <= l < b.len() && r(a[k], #[trigger] b[l]);
        assert(precedes(a[k].name@, a[n].name@));
        lemma_precedes_irreflexive(a[k].name@);
        assert(v[l] == b[l]);
    }
    assert forall|k: int| 0 <= k < v.len() implies is_partner(u, #[trigger] v[k], r) by {
        assert(is_partner(a, b[k], r));
        let l = choose|l: int| 0 <= l < a.len() && r(#[trigger] a[l], b[k]);
        assert(precedes(b[k].name@, b[m].name@));
        lemma_precedes_irreflexive(b[k].name@);
        assert(u[l] == a[l]);
    }
}

/// Bands in the order of their names are paired one by one.
pub proof fn lemma_paired_pointwise(a: Seq<Band>, b: Seq<Band>, r: spec_fn(Band, Band) -> bool)
    requires
        ascending(a),
        ascending(b),
        paired(a, b, r),
        keeps_names(r),
    ensures
        a.len() == b.len(),
        forall|i: int| 0 <= i < a.len() ==> r(#[trigger] a[i], b[i]),
    decreases a.len(),
{
    if a.len() == 0 {
        if b.len() > 0 {
            assert(is_partner(a, b[0], r));
        }
    } else {
        let (u, v) = (a.drop_last(), b.drop_last());
        lemma_last_paired(a, b, r);
        lemma_paired_drop_last(a, b, r);
        lemma_ascending_drop_last(a);
        lemma_ascending_drop_last(b);
        lemma_paired_pointwise(u, v, r);
        assert forall|k: int| 0 <= k < a.len() implies r(#[trigger] a[k], b[k]) by {
            if k < u.len() {
                assert(r(u[k], v[k]));
            }
        }
    }
}

/// Time, flux and uncertainty of the usable ones among the first `n` measurements.
pub open spec fn usable_points(data: BandData, n: nat) -> Seq<(Real, Real, Real)>
    decreases n,
{
    if n == 0 {
        Seq::empty()
    } else {
        let before = usable_points(data, (n - 1) as nat);
        if usable(data, n - 1) {
            before.push((data.times@[n - 1], data.values@[n - 1], data.errors@[n - 1]))
        } else {
            before
        }
    }
}

/// Time, flux and uncertainty of the usable measurements of a band.
pub open spec fn points(band: Band) -> Seq<(Real, Real, Real)> {
    usable_points(band.data, band.data.times@.len())
}

/// The two bands have the same name, wavelength and usable measurements.
pub open spec fn alike(x: Band, y: Band) -> bool {
    &&& x.name@ == y.name@
    &&& x.wavelength == y.wavelength
    &&& points(x) == points(y)
}

proof fn lemma_observations_of_points(f: Arith, nu: Real, data: BandData, n: nat)
    ensures
        usable_points(data, n).len() == usable_count(data, n),
        band_observations(f, nu, data, n) == usable_points(data, n).map_values(
            |p: (Real, Real, Real)|
                SbplObs {
                    time: p.0,
                    nu_scaled: f(Op::Div(nu, FREQUENCY_UNIT)),
                    flux: p.1,
                    flux_err: p.2,
                },
        ),
    decreases n,
{
    if n > 0 {
        lemma_observations_of_points(f, nu, data, (n - 1) as nat);
    }
}

proof fn lemma_alike_contribute_alike(f: Arith, x: Band, y: Band)
    requires
        alike(x, y),
    ensures
        contribution(f, x) == contribution(f, y),
        contribution_count(x) == contribution_count(y),
{
    if let Some(nu) = frequency(f, x.wavelength) {
        lemma_observations_of_points(f, nu, x.data, x.data.times@.len());
        lemma_observations_of_points(f, nu, y.data, y.data.times@.len());
    }
}

proof fn lemma_alike_gathered(f: Arith, a: Seq<Band>, b: Seq<Band>)
    requires
        a.len() == b.len(),
        forall|i: int| 0 <= i < a.len() ==> alike(#[trigger] a[i], b[i]),
        forall|i: int| 0 <= i < a.len() ==> counts(#[trigger] a[i]),
        forall|i: int| 0 <= i < b.len() ==> counts(#[trigger] b[i]),
    ensures
        gathered(f, a) == gathered(f, b),
        observation_count(a) == observation_count(b),
        band_count(a) == band_count(b),
    decreases a.len(),
{
    if a.len() > 0 {
        let n = a.len() - 1;
        let (u, v) = (a.drop_last(), b.drop_last());
        assert forall|i: int| 0 <= i < u.len() implies alike(#[trigger] u[i], v[i]) by {
            assert(u[i] == a[i] && v[i] == b[i]);
        }
        lemma_alike_gathered(f, u, v);
        assert(alike(a[n], b[n]));
        lemma_alike_contribute_alike(f, a[n], b[n]);
    }
}

/// The bands that count: their frequency is known and they have measurements.
pub open spec fn relevant(bands: Seq<Band>) -> Seq<Band> {
    bands.filter(|b: Band| counts(b))
}

proof fn lemma_relevant_last(bands: Seq<Band>)
    requires
        bands.len() > 0,
    ensures
        relevant(bands) == if counts(bands.last()) {
            relevant(bands.drop_last()).push(bands.last())
        } else {
            relevant(bands.drop_last())
        },
{
    reveal(Seq::filter);
}

proof fn lemma_relevant(bands: Seq<Band>)
    ensures
        forall|i: int|
            0 <= i < relevant(bands).len() ==> bands.contains(#[trigger] relevant(bands)[i])
                && counts(relevant(bands)[i]),
        forall|x: Band| #[trigger]
            relevant(bands).to_multiset().count(x) == if counts(x) {
                bands.to_multiset().count(x)
            } else {
                0
            },
        ascending(bands) ==> ascending(relevant(bands)),
    decreases bands.len(),
{
    if bands.len() == 0 {
        reveal(Seq::filter);
        assert(relevant(bands) =~= bands);
        assert forall|x: Band| #[trigger]
            relevant(bands).to_multiset().count(x) == if counts(x) {
            bands.to_multiset().count(x)
        } else {
            0
        } by {
            assert(!bands.contains(x));
        }
    } else {
        let before = bands.drop_last();
        let x = bands.last();
        let n = bands.len() - 1;
        lemma_relevant(before);
        lemma_relevant_last(bands);
        assert(bands == before.push(x));
        let (t, u) = (relevant(before), relevant(bands));
        assert forall|i: int| 0 <= i < u.len() implies bands.contains(#[trigger] u[i]) && counts(
            u[i],
        ) by {
            if i < t.len() {
                assert(u[i] == t[i]);
                assert(before.contains(t[i]));
                let j = choose|j: int| 0 <= j < before.len() && before[j] == t[i];
                assert(bands[j] == t[i]);
            } else {
                assert(bands[n] == u[i]);
            }
        }
        if ascending(bands) {
            lemma_ascending_drop_last(bands);
            assert forall|i: int, j: int| 0 <= i < j < u.len() implies precedes(
                (#[trigger] u[i]).name@,
                (#[trigger] u[j]).name@,
            ) by {
                if j < t.len() {
                    assert(u[i] == t[i] && u[j] == t[j]);
                } else {
                    assert(u[i] == t[i] && u[j] == x);
                    assert(before.contains(t[i]));
                    let k = choose|k: int| 0 <= k < before.len() && before[k] == t[i];
                    assert(bands[k] == t[i] && bands[n] == x);
                }
            }
        }
    }
}

proof fn lemma_relevant_gathered(f: Arith, bands: Seq<Band>)
    ensures
        gathered(f, relevant(bands)) == gathered(f, bands),
        observation_count(relevant(bands)) == observation_count(bands),
        band_count(relevant(bands)) == band_count(bands),
    decreases bands.len(),
{
    if bands.len() == 0 {
        reveal(Seq::filter);
        assert(relevant(bands) =~= bands);
    } else {
        let before = bands.drop_last();
        let x = bands.last();
        lemma_relevant_gathered(f, before);
        lemma_relevant_last(bands);
        if counts(x) {
            assert(relevant(bands).drop_last() =~= relevant(before));
        } else {
            assert(contribution(f, x) =~= Seq::empty());
            assert(gathered(f, before) + contribution(f, x) =~= gathered(f, before));
        }
    }
}

/// Both bands count, and they are alike.
pub open spec fn count_alike(x: Band, y: Band) -> bool {
    counts(x) && counts(y) && alike(x, y)
}

/// The bands that count are alike: each one on either side has one on the other with the
/// same name, wavelength and usable measurements.
pub open spec fn equivalent(bands1: Seq<Band>, bands2: Seq<Band>) -> bool {
    let r = |x: Band, y: Band| count_alike(x, y);
    &&& forall|i: int|
        0 <= i < bands1.len() && counts(#[trigger] bands1[i]) ==> has_partner(bands1[i], bands2, r)
    &&& forall|j: int|
        0 <= j < bands2.len() && counts(#[trigger] bands2[j]) ==> is_partner(bands1, bands2[j], r)
}

proof fn lemma_relevant_contains(bands: Seq<Band>, x: Band)
    requires
        bands.contains(x),
        counts(x),
    ensures
        relevant(bands).contains(x),
{
    lemma_relevant(bands);
    assert(bands.to_multiset().count(x) > 0);
    assert(relevant(bands).to_multiset().count(x) > 0);
}

proof fn lemma_equivalent_paired(bands1: Seq<Band>, bands2: Seq<Band>)
    requires
        equivalent(bands1, bands2),
    ensures
        paired(relevant(bands1), relevant(bands2), |x: Band, y: Band| count_alike(x, y)),
{
    let r = |x: Band, y: Band| count_alike(x, y);
    let (u, v) = (relevant(bands1), relevant(bands2));
    lemma_relevant(bands1);
    lemma_relevant(bands2);
    assert forall|i: int| 0 <= i < u.len() implies has_partner(#[trigger] u[i], v, r) by {
        assert(bands1.contains(u[i]));
        let k = choose|k: int| 0 <= k < bands1.len() && bands1[k] == u[i];
        assert(has_partner(bands1[k], bands2, r));
        let j = choose|j: int| 0 <= j < bands2.len() && r(u[i], #[trigger] bands2[j]);
        assert(bands2.contains(bands2[j]));
        lemma_relevant_contains(bands2, bands2[j]);
        let l = choose|l: int| 0 <= l < v.len() && v[l] == bands2[j];
        assert(r(u[i], v[l]));
    }
    assert forall|j: int| 0 <= j < v.len() implies is_partner(u, #[trigger] v[j], r) by {
        assert(bands2.contains(v[j]));
        let k = choose|k: int| 0 <= k < bands2.len() && bands2[k] == v[j];
        assert(is_partner(bands1, bands2[k], r));
        let i = choose|i: int| 0 <= i < bands1.len() && r(#[trigger] bands1[i], v[j]);
        assert(bands1.contains(bands1[i]));
        lemma_relevant_contains(bands1, bands1[i]);
        let l = choose|l: int| 0 <= l < u.len() && u[l] == bands1[i];
        assert(r(u[l], v[j]));
    }
}

proof fn lemma_equivalent_gathered(f: Arith, bands1: Seq<Band>, bands2: Seq<Band>)
    requires
        distinct(bands1),
        distinct(bands2),
        equivalent(bands1, bands2),
    ensures
        gathered(f, in_name_order(bands1)) == gathered(f, in_name_order(bands2)),
        observation_count(in_name_order(bands1)) == observation_count(in_name_order(bands2)),
        band_count(in_name_order(bands1)) == band_count(in_name_order(bands2)),
{
    let r = |x: Band, y: Band| count_alike(x, y);
    let (s, t) = (in_name_order(bands1), in_name_order(bands2));
    lemma_arrangement_exists(bands1);
    lemma_arrangement_exists(bands2);
    lemma_relevant(bands1);
    lemma_relevant(bands2);
    lemma_relevant(s);
    lemma_relevant(t);
    assert(relevant(s).to_multiset() =~= relevant(bands1).to_multiset());
    assert(relevant(t).to_multiset() =~= relevant(bands2).to_multiset());
    lemma_equivalent_paired(bands1, bands2);
    lemma_paired_rearranged(relevant(bands1), relevant(bands2), relevant(s), relevant(t), r);
    lemma_paired_pointwise(relevant(s), relevant(t), r);
    assert forall|i: int| 0 <= i < relevant(s).len() implies alike(
        #[trigger] relevant(s)[i],
        relevant(t)[i],
    ) by {
        assert(r(relevant(s)[i], relevant(t)[i]));
    }
    lemma_alike_gathered(f, relevant(s), relevant(t));
    lemma_relevant_gathered(f, s);
    lemma_relevant_gathered(f, t);
}

/// What a fit cannot use does not change it: bands without a known frequency, bands
/// without measurements and unusable measurements in other bands may be added, left out
/// or exchanged, and the bands may come in any order.
pub proof fn law_unusable_data_ignored<
    S,
    P: Fn(&ScaledSbplCost, &Vec<Real>) -> Option<Vec<Real>>,
>(
    f: Arith,
    g: Source<S>,
    h: Solver,
    polish: P,
    s: S,
    bands1: Seq<Band>,
    bands2: Seq<Band>,
    r: Option<SbplResult>,
)
    requires
        distinct(bands1),
        distinct(bands2),
        equivalent(bands1, bands2),
    ensures
        fit_result(f, g, h, s, in_name_order(bands1)) == fit_result(
            f,
            g,
            h,
            s,
            in_name_order(bands2),
        ),
        fitted(f, g, polish, s, in_name_order(bands1), r) <==> fitted(
            f,
            g,
            polish,
            s,
            in_name_order(bands2),
            r,
        ),
{
    lemma_equivalent_gathered(f, bands1, bands2);
}

/// Bands that do not count can be left out: the fit to the rest is the same.
pub proof fn law_irrelevant_bands_skipped<
    S,
    P: Fn(&ScaledSbplCost, &Vec<Real>) -> Option<Vec<Real>>,
>(f: Arith, g: Source<S>, h: Solver, polish: P, s: S, bands: Seq<Band>, r: Option<SbplResult>)
    requires
        distinct(bands),
    ensures
        fit_result(f, g, h, s, in_name_order(bands)) == fit_result(
            f,
            g,
            h,
            s,
            in_name_order(relevant(bands)),
        ),
        fitted(f, g, polish, s, in_name_order(bands), r) <==> fitted(
            f,
            g,
            polish,
            s,
            in_name_order(relevant(bands)),
            r,
        ),
{
    let rest = relevant(bands);
    let q = |x: Band, y: Band| count_alike(x, y);
    lemma_relevant(bands);
    lemma_relevant_distinct(bands);
    assert forall|i: int| 0 <= i < bands.len() && counts(#[trigger] bands[i]) implies has_partner(
        bands[i],
        rest,
        q,
    ) by {
        assert(bands.contains(bands[i]));
        lemma_relevant_contains(bands, bands[i]);
        let j = choose|j: int| 0 <= j < rest.len() && rest[j] == bands[i];
        assert(q(bands[i], rest[j]));
    }
    assert forall|j: int| 0 <= j < rest.len() && counts(#[trigger] rest[j]) implies is_partner(
        bands,
        rest[j],
        q,
    ) by {
        let i = choose|i: int| 0 <= i < bands.len() && bands[i] == rest[j];
        assert(q(bands[i], rest[j]));
    }
    law_unusable_data_ignored(f, g, h, polish, s, bands, rest, r);
}

proof fn lemma_relevant_distinct(bands: Seq<Band>)
    requires
        distinct(bands),
    ensures
        distinct(relevant(bands)),
    decreases bands.len(),
{
    if bands.len() == 0 {
        reveal(Seq::filter);
    } else {
        let before = bands.drop_last();
        let n = bands.len() - 1;
        assert(distinct(before)) by {
            assert forall|i: int, j: int| 0 <= i < j < before.len() implies (
            #[trigger] before[i]).name@ != (#[trigger] before[j]).name@ by {
                assert(before[i] == bands[i] && before[j] == bands[j]);
            }
        }
        lemma_relevant_distinct(before);
        lemma_relevant(before);
        lemma_relevant_last(bands);
        let (t, u) = (relevant(before), relevant(bands));
        assert forall|i: int, j: int| 0 <= i < j < u.len() implies (#[trigger] u[i]).name@ != (
        #[trigger] u[j]).name@ by {
            assert(u[i] == t[i]);
            if j < t.len() {
                assert(u[j] == t[j]);
            } else {
                assert(before.contains(t[i]));
                let k = choose|k: int| 0 <= k < before.len() && before[k] == t[i];
                assert(bands[k] == t[i] && bands[n] == u[j]);
            }
        }
    }
}

/// The two bands hold the same name, wavelength and measurements.
pub open spec fn equal(x: Band, y: Band) -> bool {
    &&& x.name@ == y.name@
    &&& x.wavelength == y.wavelength
    &&& x.data.times@ == y.data.times@
    &&& x.data.values@ == y.data.values@
    &&& x.data.errors@ == y.data.errors@
}

proof fn lemma_equal_points(x: BandData, y: BandData, n: nat)
    requires
        x.times@ == y.times@,
        x.values@ == y.values@,
        x.errors@ == y.errors@,
    ensures
        usable_points(x, n) == usable_points(y, n),
    decreases n,
{
    if n > 0 {
        lemma_equal_points(x, y, (n - 1) as nat);
    }
}

/// Equal light curves have equal fits: the order in which bands are handed over does not
/// matter.
pub proof fn law_band_order_irrelevant<
    S,
    P: Fn(&ScaledSbplCost, &Vec<Real>) -> Option<Vec<Real>>,
>(
    f: Arith,
    g: Source<S>,
    h: Solver,
    polish: P,
    s: S,
    bands1: Seq<Band>,
    bands2: Seq<Band>,
    r: Option<SbplResult>,
)
    requires
        distinct(bands1),
        distinct(bands2),
        paired(bands1, bands2, |x: Band, y: Band| equal(x, y)),
    ensures
        fit_result(f, g, h, s, in_name_order(bands1)) == fit_result(
            f,
            g,
            h,
            s,
            in_name_order(bands2),
        ),
        fitted(f, g, polish, s, in_name_order(bands1), r) <==> fitted(
            f,
            g,
            polish,
            s,
            in_name_order(bands2),
            r,
        ),
{
    let e = |x: Band, y: Band| equal(x, y);
    let q = |x: Band, y: Band| count_alike(x, y);
    assert forall|i: int|
        0 <= i < bands1.len() && counts(#[trigger] bands1[i]) implies has_partner(
        bands1[i],
        bands2,
        q,
    ) by {
        assert(has_partner(bands1[i], bands2, e));
        let j = choose|j: int| 0 <= j < bands2.len() && e(bands1[i], #[trigger] bands2[j]);
        lemma_equal_points(bands1[i].data, bands2[j].data, bands1[i].data.times@.len());
        assert(q(bands1[i], bands2[j]));
    }
    assert forall|j: int|
        0 <= j < bands2.len() && counts(#[trigger] bands2[j]) implies is_partner(
        bands1,
        bands2[j],
        q,
    ) by {
        assert(is_partner(bands1, bands2[j], e));
        let i = choose|i: int| 0 <= i < bands1.len() && e(#[trigger] bands1[i], bands2[j]);
        lemma_equal_points(bands1[i].data, bands2[j].data, bands2[j].data.times@.len());
        assert(q(bands1[i], bands2[j]));
    }
    law_unusable_data_ignored(f, g, h, polish, s, bands1, bands2, r);
}

/// `longer` is `data` with one more measurement, put in at `at`, that is not usable.
pub open spec fn pads(data: BandData, longer: BandData, at: int) -> bool {
    &&& 0 <= at <= data.times@.len()
    &&& data.times@.len() <= data.values@.len()
    &&& data.times@.len() <= data.errors@.len()
    &&& longer.times@ == data.times@.insert(at, longer.times@[at])
    &&& longer.values@ == data.values@.insert(at, longer.values@[at])
    &&& longer.errors@ == data.errors@.insert(at, longer.errors@[at])
    &&& !usable(longer, at)
}

proof fn lemma_same_prefix(x: BandData, y: BandData, n: nat)
    requires
        forall|i: int|
            0 <= i < n ==> x.times@[i] == y.times@[i] && x.values@[i] == y.values@[i]
                && x.errors@[i] == y.errors@[i],
    ensures
        usable_points(x, n) == usable_points(y, n),
    decreases n,
{
    if n > 0 {
        lemma_same_prefix(x, y, (n - 1) as nat);
        assert(x.times@[n - 1] == y.times@[n - 1]);
    }
}

proof fn lemma_padded_points(data: BandData, longer: BandData, at: int, n: nat)
    requires
        pads(data, longer, at),
        at <= n <= data.times@.len(),
    ensures
        usable_points(longer, n + 1) == usable_points(data, n),
    decreases n,
{
    if at < n {
        lemma_padded_points(data, longer, at, (n - 1) as nat);
        assert(usable(longer, n as int) == usable(data, n - 1));
    } else {
        lemma_same_prefix(data, longer, n);
    }
}

/// An unusable measurement, put in anywhere in a band that has measurements, leaves the
/// usable measurements of the band and the fit as they are.
pub proof fn law_unusable_point_ignored<
    S,
    P: Fn(&ScaledSbplCost, &Vec<Real>) -> Option<Vec<Real>>,
>(
    f: Arith,
    g: Source<S>,
    h: Solver,
    polish: P,
    s: S,
    bands: Seq<Band>,
    k: int,
    longer: Band,
    at: int,
    r: Option<SbplResult>,
)
    requires
        distinct(bands),
        0 <= k < bands.len(),
        counts(bands[k]),
        longer.name@ == bands[k].name@,
        longer.wavelength == bands[k].wavelength,
        pads(bands[k].data, longer.data, at),
    ensures
        points(longer) == points(bands[k]),
        fit_result(f, g, h, s, in_name_order(bands)) == fit_result(
            f,
            g,
            h,
            s,
            in_name_order(bands.update(k, longer)),
        ),
        fitted(f, g, polish, s, in_name_order(bands), r) <==> fitted(
            f,
            g,
            polish,
            s,
            in_name_order(bands.update(k, longer)),
            r,
        ),
{
    let more = bands.update(k, longer);
    let q = |x: Band, y: Band| count_alike(x, y);
    lemma_padded_points(bands[k].data, longer.data, at, bands[k].data.times@.len());
    assert forall|i: int, j: int| 0 <= i < j < more.len() implies (#[trigger] more[i]).name@ != (
    #[trigger] more[j]).name@ by {
        assert(bands[i].name@ != bands[j].name@);
    }
    assert forall|i: int| 0 <= i < bands.len() && counts(#[trigger] bands[i]) implies has_partner(
        bands[i],
        more,
        q,
    ) by {
        assert(q(bands[i], more[i]));
    }
    assert forall|j: int| 0 <= j < more.len() && counts(#[trigger] more[j]) implies is_partner(
        bands,
        more[j],
        q,
    ) by {
        assert(q(bands[j], more[j]));
    }
    law_unusable_data_ignored(f, g, h, polish, s, bands, more, r);
}

} // verus!
