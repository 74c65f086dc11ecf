//! What holds of the cost up to rounding: neither the order nor the repetition of
//! observations matters, and a common factor of fluxes is absorbed by the amplitude.

use vstd::prelude::*;
use vstd::seq_lib::group_to_multiset_ensures;

use crate::arith::{Arith, Op};
use crate::cost::{
    chi2, cost, misfit, predictable, predicted, SbplObs, N_PARAMS, PENALTY, VARIANCE_FLOOR,
};
use crate::model::model;
use crate::model_laws::{
    dwarfs_floor, elapsed, lemma_predicted_product, rescaled, rescaled_obs, rise, spectrum, turn,
};
use crate::reals::{
    lemma_difference_scaled, lemma_product_scaled, lemma_product_sign, lemma_quotient_scaled,
    lemma_ratio_of_squares, lemma_rounded, lemma_scaled, lemma_size, lemma_square_scaled, size,
};
use crate::rounding::{
    counts_exactly, keeps_signs, least_error, lemma_number_order, lemma_roundoff, number,
    rounds_products, rounds_quotients, rounds_sums, roundoff, whole_product, whole_quotient,
};
use crate::word::{finite, less, Real, TEN, ZERO};

verus! {

broadcast use group_to_multiset_ensures;

/// The misfits added up without rounding.
pub open spec fn exact_chi2(f: Arith, observations: Seq<SbplObs>, p: Seq<Real>) -> real
    decreases observations.len(),
{
    if observations.len() == 0 {
        0 as real
    } else {
        exact_chi2(f, observations.drop_last(), p) + number(misfit(f, observations.last(), p))
    }
}

/// `base` times itself, `n` times over.
pub open spec fn power(base: real, n: nat) -> real
    decreases n,
{
    if n == 0 {
        1 as real
    } else {
        power(base, (n - 1) as nat) * base
    }
}

/// A misfit is never negative.
proof fn lemma_misfit_sign(f: Arith, o: SbplObs, p: Seq<Real>)
    requires
        keeps_signs(f),
    ensures
        !less(misfit(f, o, p), ZERO),
        finite(misfit(f, o, p)) ==> number(misfit(f, o, p)) >= 0 as real,
{
    let residual = f(Op::Sub(o.flux, predicted(f, o, p)));
    let square = f(Op::Mul(residual, residual));
    let spread = f(Op::Mul(o.flux_err, o.flux_err));
    let variance = f(Op::Add(spread, VARIANCE_FLOOR));
    assert(!less(square, ZERO));
    assert(less(ZERO, VARIANCE_FLOOR));
    assert(!less(f(Op::Div(square, variance)), ZERO));
    if finite(misfit(f, o, p)) {
        lemma_number_order(misfit(f, o, p), ZERO);
    }
}

proof fn lemma_powers(n: nat)
    requires
        n <= 0x10_0000_0000_0000,
    ensures
        power(1 as real + roundoff(), n) >= 1 as real,
        power(1 as real + roundoff(), n) <= 1 as real + 2 as real * (n as real) * roundoff(),
        (0 as real) < power(1 as real - roundoff(), n),
        power(1 as real - roundoff(), n) <= 1 as real,
        power(1 as real - roundoff(), n) >= 1 as real - (n as real) * roundoff(),
    decreases n,
{
    lemma_roundoff();
    let u = roundoff();
    if n > 0 {
        let m = (n - 1) as nat;
        lemma_powers(m);
        let (a, b, k) = (power(1 as real + u, m), power(1 as real - u, m), m as real);
        let ku = k * u;
        lemma_scaled(k, 0x10_0000_0000_0000int as real, u);
        assert(ku * 2 as real <= 1 as real);
        assert(n as real * u == ku + u) by (nonlinear_arith)
            requires
                n as real == k + 1 as real,
                ku == k * u,
        ;
        assert(2 as real * (n as real) * u == 2 as real * (n as real * u)) by (nonlinear_arith);
        assert(2 as real * k * u == 2 as real * ku) by (nonlinear_arith)
            requires
                ku == k * u,
        ;
        assert(a * (1 as real + u) == a + a * u) by (nonlinear_arith);
        assert(b * (1 as real - u) == b - b * u) by (nonlinear_arith);
        lemma_scaled(1 as real, a, u);
        lemma_scaled(a, 2 as real, u);
        lemma_product_sign(b, u);
        lemma_scaled(b, 1 as real, u);
        lemma_scaled(u, 1 as real / 2 as real, b);
    }
}

/// The rounded sum is finite only if all misfits are, and differs from the exact sum by as
/// many rounding errors as there are terms.
proof fn lemma_chi2_rounded(f: Arith, observations: Seq<SbplObs>, p: Seq<Real>)
    requires
        rounds_sums(f),
        keeps_signs(f),
        finite(chi2(f, observations, p)),
        observations.len() <= 0x10_0000_0000_0000,
    ensures
        ({
            let s = number(chi2(f, observations, p));
            let exact = exact_chi2(f, observations, p);
            let n = observations.len();
            &&& s >= 0 as real
            &&& exact >= 0 as real
            &&& s * power(1 as real - roundoff(), n) <= exact
            &&& exact <= s * power(1 as real + roundoff(), n)
        }),
    decreases observations.len(),
{
    lemma_number_order(ZERO, ZERO);
    lemma_roundoff();
    let u = roundoff();
    if observations.len() > 0 {
        let before = observations.drop_last();
        let o = observations.last();
        let total = chi2(f, before, p);
        assert(finite(f(Op::Add(total, misfit(f, o, p)))));
        lemma_chi2_rounded(f, before, p);
        lemma_misfit_sign(f, o, p);
        lemma_powers(before.len());
        let (s, x, r) = (number(total), number(misfit(f, o, p)), number(chi2(f, observations, p)));
        let (a, b) = (power(1 as real + u, before.len()), power(1 as real - u, before.len()));
        let exact = exact_chi2(f, before, p);
        lemma_rounded(r, s + x, u);
        assert(exact + x <= r * (a * (1 as real + u))) by {
            lemma_scaled(1 as real, a, x);
            assert(s * a + x * a == (s + x) * a) by (nonlinear_arith);
            lemma_scaled(s + x, r + u * r, a);
            assert((r + u * r) * a == r * (a * (1 as real + u))) by (nonlinear_arith);
        }
        assert(r * (b * (1 as real - u)) <= exact + x) by {
            lemma_scaled(b, 1 as real, x);
            assert(s * b + x * b == (s + x) * b) by (nonlinear_arith);
            lemma_scaled(r - u * r, s + x, b);
            assert((r - u * r) * b == r * (b * (1 as real - u))) by (nonlinear_arith);
        }
    }
}

/// So few observations that they can be counted and their rounding errors stay small.
pub open spec fn countable(n: nat) -> bool {
    n <= usize::MAX && n < 0x10_0000_0000_0000
}

/// The cost is the penalty exactly where there is no observation or where the model has no
/// finite value at one of them, unless the rounded mean happens to be that number. Elsewhere
/// it is the sum of the misfits over their number.
pub proof fn law_cost_by_cases(f: Arith, observations: Seq<SbplObs>, p: Seq<Real>)
    ensures
        observations.len() == 0 ==> cost(f, observations, p) == PENALTY,
        (exists|i: int|
            #![trigger observations[i]]
            0 <= i < observations.len() && !finite(
                model(
                    f,
                    observations[i].time,
                    observations[i].nu_scaled,
                    p[0],
                    p[1],
                    p[2],
                    p[3],
                    p[4],
                    p[5],
                    p[6],
                ),
            )) ==> cost(f, observations, p) == PENALTY,
        observations.len() > 0 && (forall|i: int|
            #![trigger observations[i]]
            0 <= i < observations.len() ==> finite(
                model(
                    f,
                    observations[i].time,
                    observations[i].nu_scaled,
                    p[0],
                    p[1],
                    p[2],
                    p[3],
                    p[4],
                    p[5],
                    p[6],
                ),
            )) ==> cost(f, observations, p) == f(
            Op::Div(chi2(f, observations, p), f(Op::Count(observations.len() as usize))),
        ),
{
    if exists|i: int|
        #![trigger observations[i]]
        0 <= i < observations.len() && !finite(
            model(
                f,
                observations[i].time,
                observations[i].nu_scaled,
                p[0],
                p[1],
                p[2],
                p[3],
                p[4],
                p[5],
                p[6],
            ),
        ) {
        let i = choose|i: int|
            #![trigger observations[i]]
            0 <= i < observations.len() && !finite(
                model(
                    f,
                    observations[i].time,
                    observations[i].nu_scaled,
                    p[0],
                    p[1],
                    p[2],
                    p[3],
                    p[4],
                    p[5],
                    p[6],
                ),
            );
        assert(!finite(predicted(f, observations[i], p)));
    }
}

/// One more observation adds to the sum its squared residual over its variance: the residual
/// is its flux less the model at its time and frequency, the variance its squared
/// uncertainty plus the floor.
pub proof fn law_chi2_adds(f: Arith, observations: Seq<SbplObs>, o: SbplObs, p: Seq<Real>)
    ensures
        chi2(f, Seq::<SbplObs>::empty(), p) == ZERO,
        ({
            let flux = model(f, o.time, o.nu_scaled, p[0], p[1], p[2], p[3], p[4], p[5], p[6]);
            let residual = f(Op::Sub(o.flux, flux));
            let variance = f(Op::Add(f(Op::Mul(o.flux_err, o.flux_err)), VARIANCE_FLOOR));
            chi2(f, observations.push(o), p) == f(
                Op::Add(
                    chi2(f, observations, p),
                    f(Op::Div(f(Op::Mul(residual, residual)), variance)),
                ),
            )
        }),
{
    assert(observations.push(o).drop_last() =~= observations);
    assert(observations.push(o).last() == o);
}

/// How far the cost `c` of `n` observations may be from the mean of the misfits.
pub open spec fn slack(c: Real, n: nat) -> real {
    2 as real * ((n + 1) as real) * roundoff() * number(c) + 2 as real * least_error()
}

/// The cost is the mean of the misfits, but for rounding: as many relative errors of 2^-53
/// as there are observations and one more, twice over.
pub proof fn law_cost_is_mean(f: Arith, observations: Seq<SbplObs>, p: Seq<Real>)
    requires
        rounds_sums(f),
        rounds_quotients(f),
        counts_exactly(f),
        keeps_signs(f),
        0 < observations.len(),
        countable(observations.len()),
        predictable(f, observations, p),
        finite(cost(f, observations, p)),
    ensures
        ({
            let n = observations.len() as real;
            let c = cost(f, observations, p);
            &&& number(c) >= 0 as real
            &&& size(n * number(c) - exact_chi2(f, observations, p)) <= n * slack(
                c,
                observations.len(),
            )
        }),
{
    let total = chi2(f, observations, p);
    let count = observations.len() as usize;
    assert(count as int == observations.len());
    assert(finite(f(Op::Count(count))));
    let r = cost(f, observations, p);
    assert(r == f(Op::Div(total, f(Op::Count(count)))));
    lemma_chi2_rounded(f, observations, p);
    lemma_number_order(total, ZERO);
    lemma_number_order(ZERO, f(Op::Count(count)));
    assert(!less(r, ZERO));
    lemma_number_order(r, ZERO);
    lemma_roundoff();
    lemma_powers(observations.len());
    let (u, t) = (roundoff(), least_error());
    let (n, c, s) = (observations.len() as real, number(r), number(total));
    let exact = exact_chi2(f, observations, p);
    let a = power(1 as real + u, observations.len());
    let b = power(1 as real - u, observations.len());
    let nu = n * u;
    let uc = u * c;
    lemma_scaled(n, 0x10_0000_0000_0000int as real, u);
    lemma_product_sign(n, u);
    lemma_product_sign(u, c);
    assert(2 as real * n * u == 2 as real * nu) by (nonlinear_arith)
        requires
            nu == n * u,
    ;
    let nuc = nu * c;
    lemma_product_sign(nu, c);
    let w = slack(r, observations.len());
    assert(w == 2 as real * uc + 2 as real * nuc + 2 as real * t) by {
        assert((observations.len() + 1) as real == n + 1 as real);
        assert(2 as real * (n + 1 as real) * u * c == 2 as real * uc + 2 as real * nuc)
            by (nonlinear_arith)
            requires
                uc == u * c,
                nuc == (n * u) * c,
        ;
    }
    assert(size(c * n - s) <= (uc + t) * n);
    assert((uc + t) * n == n * (uc + t)) by (nonlinear_arith);
    assert(exact <= n * c + n * w) by {
        let y = c + uc + t;
        assert(n * y == c * n + n * (uc + t)) by (nonlinear_arith)
            requires
                y == c + uc + t,
        ;
        lemma_scaled(s, n * y, a);
        lemma_product_sign(n, y);
        lemma_scaled(a, 1 as real + 2 as real * nu, n * y);
        assert((n * y) * (1 as real + 2 as real * nu) == n * (y + 2 as real * (nu * y)))
            by (nonlinear_arith);
        assert(nu * y == nuc + nu * uc + nu * t) by (nonlinear_arith)
            requires
                y == c + uc + t,
                nuc == nu * c,
        ;
        lemma_scaled(nu, 1 as real / 2 as real, uc);
        lemma_scaled(nu, 1 as real / 2 as real, t);
        lemma_scaled(y + 2 as real * (nu * y), c + w, n);
        assert(n * (c + w) == n * c + n * w) by (nonlinear_arith);
    }
    assert(exact >= n * c - n * w) by {
        let z = c - uc - t;
        assert(n * z == c * n - n * (uc + t)) by (nonlinear_arith)
            requires
                z == c - uc - t,
        ;
        assert(n * (c - w) == n * c - n * w) by (nonlinear_arith);
        if z < 0 as real {
            lemma_scaled(c - w, 0 as real, n);
        } else {
            lemma_scaled(n * z, s, b);
            lemma_product_sign(n, z);
            lemma_scaled(1 as real - nu, b, n * z);
            assert((n * z) * (1 as real - nu) == n * (z - nu * z)) by (nonlinear_arith);
            lemma_scaled(z, c, nu);
            lemma_scaled(c - w, z - nu * z, n);
        }
    }
}

proof fn lemma_exact_chi2_remove(f: Arith, observations: Seq<SbplObs>, p: Seq<Real>, j: int)
    requires
        0 <= j < observations.len(),
    ensures
        exact_chi2(f, observations, p) == exact_chi2(f, observations.remove(j), p) + number(
            misfit(f, observations[j], p),
        ),
    decreases observations.len(),
{
    let rest = observations.remove(j);
    if j == observations.len() - 1 {
        assert(rest == observations.drop_last());
    } else {
        lemma_exact_chi2_remove(f, observations.drop_last(), p, j);
        assert(rest.drop_last() == observations.drop_last().remove(j));
        assert(rest.last() == observations.last());
    }
}

proof fn lemma_exact_chi2_permuted(f: Arith, a: Seq<SbplObs>, b: Seq<SbplObs>, p: Seq<Real>)
    requires
        a.to_multiset() == b.to_multiset(),
    ensures
        a.len() == b.len(),
        exact_chi2(f, a, p) == exact_chi2(f, b, p),
        predictable(f, a, p) ==> predictable(f, b, p),
    decreases a.len(),
{
    assert(a.len() == a.to_multiset().len());
    assert(b.len() == b.to_multiset().len());
    if predictable(f, a, p) {
        assert forall|i: int| 0 <= i < b.len() implies finite(#[trigger] predicted(f, b[i], p)) by {
            assert(b.contains(b[i]));
            assert(b.to_multiset().count(b[i]) > 0);
            assert(a.to_multiset().count(b[i]) > 0);
            assert(a.contains(b[i]));
            let k = choose|k: int| 0 <= k < a.len() && a[k] == b[i];
            assert(finite(predicted(f, a[k], p)));
        }
    }
    if a.len() > 0 {
        let n = a.len() - 1;
        let x = a[n];
        assert(a.contains(x));
        assert(a.to_multiset().count(x) > 0);
        assert(b.to_multiset().count(x) > 0);
        assert(b.contains(x));
        let j = choose|j: int| 0 <= j < b.len() && b[j] == x;
        lemma_exact_chi2_remove(f, a, p, n);
        lemma_exact_chi2_remove(f, b, p, j);
        assert(a.remove(n).to_multiset() == b.remove(j).to_multiset());
        lemma_exact_chi2_permuted(f, a.remove(n), b.remove(j), p);
    }
}

/// The order of the observations does not change the cost but for rounding.
pub proof fn law_cost_ignores_order(f: Arith, a: Seq<SbplObs>, b: Seq<SbplObs>, p: Seq<Real>)
    requires
        rounds_sums(f),
        rounds_quotients(f),
        counts_exactly(f),
        keeps_signs(f),
        a.to_multiset() == b.to_multiset(),
        countable(a.len()),
        finite(cost(f, a, p)),
        finite(cost(f, b, p)),
    ensures
        ({
            let (c, d) = (cost(f, a, p), cost(f, b, p));
            size(number(c) - number(d)) <= slack(c, a.len()) + slack(d, b.len())
        }),
{
    lemma_exact_chi2_permuted(f, a, b, p);
    lemma_exact_chi2_permuted(f, b, a, p);
    let (c, d) = (number(cost(f, a, p)), number(cost(f, b, p)));
    let (v, w) = (slack(cost(f, a, p), a.len()), slack(cost(f, b, p), b.len()));
    if a.len() > 0 && predictable(f, a, p) {
        law_cost_is_mean(f, a, p);
        law_cost_is_mean(f, b, p);
        let n = a.len() as real;
        let exact = exact_chi2(f, a, p);
        lemma_means_close(n, c, d, exact, v, w);
    } else {
        lemma_penalty_slack(a.len());
        lemma_penalty_slack(b.len());
    }
}

/// Two numbers that are near the same mean are near each other.
proof fn lemma_means_close(n: real, c: real, d: real, exact: real, v: real, w: real)
    requires
        n > 0 as real,
        size(n * c - exact) <= n * v,
        size(n * d - exact) <= n * w,
    ensures
        size(c - d) <= v + w,
{
    let x = c - d;
    assert(n * x == n * c - n * d) by (nonlinear_arith)
        requires
            x == c - d,
    ;
    lemma_size(n, x);
    assert(n * (v + w) == n * v + n * w) by (nonlinear_arith);
    assert(size(x) <= v + w) by (nonlinear_arith)
        requires
            n * size(x) <= n * (v + w),
            n > 0 as real,
    ;
}

proof fn lemma_penalty_slack(n: nat)
    ensures
        slack(PENALTY, n) >= 0 as real,
{
    lemma_number_order(ZERO, PENALTY);
    lemma_roundoff();
    let (u, c, m) = (roundoff(), number(PENALTY), (n + 1) as real);
    lemma_product_sign(2 as real * m, u);
    lemma_product_sign(2 as real * m * u, c);
}

proof fn lemma_exact_chi2_concat(f: Arith, a: Seq<SbplObs>, b: Seq<SbplObs>, p: Seq<Real>)
    ensures
        exact_chi2(f, a + b, p) == exact_chi2(f, a, p) + exact_chi2(f, b, p),
    decreases b.len(),
{
    if b.len() == 0 {
        assert(a + b == a);
    } else {
        lemma_exact_chi2_concat(f, a, b.drop_last(), p);
        assert((a + b).drop_last() == a + b.drop_last());
        assert((a + b).last() == b.last());
    }
}

/// The cost is a mean: the same observations twice over have the cost that they have once,
/// but for rounding.
pub proof fn law_cost_ignores_repetition(f: Arith, a: Seq<SbplObs>, p: Seq<Real>)
    requires
        rounds_sums(f),
        rounds_quotients(f),
        counts_exactly(f),
        keeps_signs(f),
        countable(2 * a.len()),
        finite(cost(f, a, p)),
        finite(cost(f, a + a, p)),
    ensures
        ({
            let (c, d) = (cost(f, a, p), cost(f, a + a, p));
            size(number(c) - number(d)) <= slack(c, a.len()) + slack(d, 2 * a.len())
        }),
{
    let aa = a + a;
    if predictable(f, a, p) {
        assert forall|i: int| 0 <= i < aa.len() implies finite(
            #[trigger] predicted(f, aa[i], p),
        ) by {
            let k = if i < a.len() {
                i
            } else {
                i - a.len()
            };
            assert(aa[i] == a[k]);
            assert(finite(predicted(f, a[k], p)));
        }
    }
    if predictable(f, aa, p) {
        assert forall|i: int| 0 <= i < a.len() implies finite(#[trigger] predicted(f, a[i], p)) by {
            assert(aa[i] == a[i]);
            assert(finite(predicted(f, aa[i], p)));
        }
    }
    let (c, d) = (number(cost(f, a, p)), number(cost(f, aa, p)));
    let (v, w) = (slack(cost(f, a, p), a.len()), slack(cost(f, aa, p), aa.len()));
    if a.len() > 0 && predictable(f, a, p) {
        law_cost_is_mean(f, a, p);
        law_cost_is_mean(f, aa, p);
        lemma_exact_chi2_concat(f, a, a, p);
        let n = a.len() as real;
        let exact = exact_chi2(f, a, p);
        assert(aa.len() as real == 2 as real * n);
        assert((2 as real * n) * d == 2 as real * (n * d)) by (nonlinear_arith);
        assert((2 as real * n) * w == 2 as real * (n * w)) by (nonlinear_arith);
        lemma_means_close(n, c, d, exact, v, w);
    } else {
        lemma_penalty_slack(a.len());
        lemma_penalty_slack(aa.len());
    }
}

/// The misfit of an observation is finite, none of its products and none of its quotients
/// underflows, and its uncertainty is positive and dwarfs the floor under the variance.
pub open spec fn regular(f: Arith, o: SbplObs, p: Seq<Real>) -> bool {
    let amplitude = f(Op::Pow(TEN, p[4]));
    let product1 = f(Op::Mul(amplitude, spectrum(f, o, p)));
    let product2 = f(Op::Mul(product1, rise(f, o, p)));
    let residual = f(Op::Sub(o.flux, predicted(f, o, p)));
    let variance = f(Op::Mul(o.flux_err, o.flux_err));
    &&& finite(predicted(f, o, p))
    &&& !less(elapsed(f, o, p), ZERO) ==> {
        &&& whole_product(f, amplitude, spectrum(f, o, p))
        &&& whole_product(f, product1, rise(f, o, p))
        &&& whole_product(f, product2, turn(f, o, p))
    }
    &&& finite(residual)
    &&& whole_product(f, residual, residual)
    &&& less(ZERO, o.flux_err)
    &&& whole_product(f, o.flux_err, o.flux_err)
    &&& dwarfs_floor(f, o.flux_err)
    &&& whole_quotient(f, f(Op::Mul(residual, residual)), variance)
}

/// The amplitude at `loga2` is that at `loga` times `k`, but for a relative error `t`.
pub open spec fn amplitude_scaled(f: Arith, k: Real, loga: Real, loga2: Real, t: real) -> bool {
    let (a, a2) = (f(Op::Pow(TEN, loga)), f(Op::Pow(TEN, loga2)));
    &&& finite(a) && finite(a2)
    &&& size(number(a2) - number(k) * number(a)) <= t * (number(k) * size(number(a)))
}

/// The factor `k` can be applied to an observation without overflow or underflow, and the
/// misfit is regular before and after, with the amplitude at `loga` after.
pub open spec fn rescales_regularly(
    f: Arith,
    k: Real,
    o: SbplObs,
    p: Seq<Real>,
    loga: Real,
) -> bool {
    &&& whole_product(f, k, o.flux)
    &&& whole_product(f, k, o.flux_err)
    &&& regular(f, o, p)
    &&& regular(f, rescaled_obs(f, k, o), p.update(4, loga))
}

/// The sizes of flux and model together, squared, over the variance: how much the errors
/// of flux and model weigh in the misfit.
pub open spec fn leverage(f: Arith, o: SbplObs, p: Seq<Real>) -> real {
    let m = size(number(o.flux)) + size(number(predicted(f, o, p)));
    (m * m) / number(f(Op::Mul(o.flux_err, o.flux_err)))
}

/// The weight of the errors where the amplitude has the relative error `t`.
pub open spec fn sensitivity(t: real) -> real {
    4 as real * t + 272 as real * roundoff()
}

proof fn lemma_product_rounded(f: Arith, x: Real, y: Real)
    requires
        rounds_products(f),
        whole_product(f, x, y),
    ensures
        finite(f(Op::Mul(x, y))),
        finite(x),
        finite(y),
        size(number(f(Op::Mul(x, y))) - number(x) * number(y)) <= (2 as real * roundoff()) * size(
            number(x) * number(y),
        ),
        number(x) * number(y) >= 0 as real ==> number(f(Op::Mul(x, y))) >= 0 as real,
{
    lemma_roundoff();
    let r = f(Op::Mul(x, y));
    assert(finite(r));
    lemma_rounded(number(r), number(x) * number(y), roundoff());
}

/// A misfit times the squared uncertainty is, in numbers, the squared difference of flux and
/// model, but for rounding.
pub proof fn law_misfit_of_numbers(f: Arith, o: SbplObs, p: Seq<Real>)
    requires
        rounds_sums(f),
        rounds_products(f),
        rounds_quotients(f),
        keeps_signs(f),
        regular(f, o, p),
    ensures
        ({
            let flux = model(f, o.time, o.nu_scaled, p[0], p[1], p[2], p[3], p[4], p[5], p[6]);
            let (d, e) = (number(o.flux) - number(flux), number(o.flux_err));
            size(number(misfit(f, o, p)) * (e * e) - d * d) <= 22 as real * roundoff() * (d * d)
        }),
{
    let u = roundoff();
    let v = 2 as real * u;
    lemma_roundoff();
    let w = predicted(f, o, p);
    let r = f(Op::Sub(o.flux, w));
    let (d, a) = (number(o.flux) - number(w), number(r));
    lemma_rounded(a, d, u);
    lemma_size(a, a);
    let e = number(o.flux_err);
    lemma_size(e, e);
    lemma_product_rounded(f, r, r);
    lemma_product_rounded(f, o.flux_err, o.flux_err);
    let (rr, vs) = (f(Op::Mul(r, r)), f(Op::Mul(o.flux_err, o.flux_err)));
    let (n, s) = (number(rr), number(vs));
    lemma_misfit_sign(f, o, p);
    let c = number(misfit(f, o, p));
    assert(misfit(f, o, p) == f(Op::Div(rr, vs)));
    lemma_size(c, s);
    assert(u * size(c) * size(s) == u * (size(c) * size(s))) by (nonlinear_arith);
    lemma_rounded(c * s, n, u);
    lemma_ratio_of_squares(d, a, n, e, s, c, v);
    assert(11 as real * (v * (d * d)) == 22 as real * u * (d * d)) by (nonlinear_arith)
        requires
            v == 2 as real * u,
    ;
}

/// The model with the scaled amplitude is the scaled model, but for rounding.
proof fn lemma_model_scaled(f: Arith, k: Real, o: SbplObs, p: Seq<Real>, loga: Real, t: real)
    requires
        rounds_products(f),
        p.len() >= N_PARAMS,
        finite(k),
        less(ZERO, k),
        (0 as real) <= t,
        4 as real * t <= 1 as real,
        amplitude_scaled(f, k, p[4], loga, t),
        regular(f, o, p),
        regular(f, rescaled_obs(f, k, o), p.update(4, loga)),
    ensures
        ({
            let m = number(predicted(f, o, p));
            let m2 = number(predicted(f, rescaled_obs(f, k, o), p.update(4, loga)));
            size(m2 - number(k) * m) <= (t + 30 as real * roundoff()) * (number(k) * size(m))
        }),
{
    let o2 = rescaled_obs(f, k, o);
    let q = p.update(4, loga);
    let kk = number(k);
    let v = 2 as real * roundoff();
    lemma_roundoff();
    lemma_number_order(ZERO, k);
    lemma_predicted_product(f, o, p);
    lemma_predicted_product(f, o2, q);
    assert(elapsed(f, o2, q) == elapsed(f, o, p));
    if less(elapsed(f, o, p), ZERO) {
        assert(kk * 0 as real == 0 as real) by (nonlinear_arith);
        assert((t + 30 as real * roundoff()) * 0 as real == 0 as real) by (nonlinear_arith);
    } else {
        let (y1, y2, y3) = (spectrum(f, o, p), rise(f, o, p), turn(f, o, p));
        assert(y1 == spectrum(f, o2, q) && y2 == rise(f, o2, q) && y3 == turn(f, o2, q));
        let (a, b) = (f(Op::Pow(TEN, p[4])), f(Op::Pow(TEN, loga)));
        let (a1, b1) = (f(Op::Mul(a, y1)), f(Op::Mul(b, y1)));
        let (a2, b2) = (f(Op::Mul(a1, y2)), f(Op::Mul(b1, y2)));
        let (a3, b3) = (f(Op::Mul(a2, y3)), f(Op::Mul(b2, y3)));
        lemma_product_rounded(f, a, y1);
        lemma_product_rounded(f, b, y1);
        lemma_product_rounded(f, a1, y2);
        lemma_product_rounded(f, b1, y2);
        lemma_product_rounded(f, a2, y3);
        lemma_product_rounded(f, b2, y3);
        let (t1, t2) = (t + 5 as real * v, t + 5 as real * v + 5 as real * v);
        lemma_product_scaled(kk, number(a), number(b), number(y1), number(a1), number(b1), t, v);
        lemma_product_scaled(kk, number(a1), number(b1), number(y2), number(a2), number(b2), t1, v);
        lemma_product_scaled(kk, number(a2), number(b2), number(y3), number(a3), number(b3), t2, v);
    }
}

/// A common factor of flux and uncertainty, with the amplitude scaled alike up to a
/// relative error `t`, changes a misfit no more than rounding and `t` account for.
pub proof fn law_misfit_absorbs_factor(
    f: Arith,
    k: Real,
    o: SbplObs,
    p: Seq<Real>,
    loga: Real,
    t: real,
)
    requires
        rounds_sums(f),
        rounds_products(f),
        rounds_quotients(f),
        keeps_signs(f),
        p.len() >= N_PARAMS,
        finite(k),
        less(ZERO, k),
        (0 as real) <= t,
        4 as real * t <= 1 as real,
        amplitude_scaled(f, k, p[4], loga, t),
        rescales_regularly(f, k, o, p, loga),
    ensures
        ({
            let change = number(misfit(f, rescaled_obs(f, k, o), p.update(4, loga))) - number(
                misfit(f, o, p),
            );
            size(change) <= sensitivity(t) * leverage(f, o, p)
        }),
{
    let o2 = rescaled_obs(f, k, o);
    let q = p.update(4, loga);
    let kk = number(k);
    let u = roundoff();
    let v = 2 as real * u;
    lemma_roundoff();
    lemma_number_order(ZERO, k);
    lemma_number_order(ZERO, o.flux_err);
    lemma_number_order(ZERO, o2.flux_err);
    // Flux, model and residual.
    let (w, w2) = (predicted(f, o, p), predicted(f, o2, q));
    let (x, x2) = (number(o.flux), number(o2.flux));
    let (y, y2) = (number(w), number(w2));
    lemma_product_rounded(f, k, o.flux);
    lemma_size(kk, x);
    lemma_model_scaled(f, k, o, p, loga, t);
    let (ra, rb) = (f(Op::Sub(o.flux, w)), f(Op::Sub(o2.flux, w2)));
    let (a, b) = (number(ra), number(rb));
    lemma_rounded(a, x - y, u);
    lemma_rounded(b, x2 - y2, u);
    let t1 = t + 30 as real * u;
    lemma_difference_scaled(kk, x, x2, y, y2, a, b, t1, v);
    let t2 = t1 + 4 as real * v;
    let m = size(x) + size(y);
    // The variance.
    let (e, e2) = (number(o.flux_err), number(o2.flux_err));
    lemma_product_rounded(f, k, o.flux_err);
    lemma_size(kk, e);
    lemma_size(e, e);
    lemma_size(e2, e2);
    lemma_product_rounded(f, o.flux_err, o.flux_err);
    lemma_product_rounded(f, o2.flux_err, o2.flux_err);
    let (vs, vs2) = (f(Op::Mul(o.flux_err, o.flux_err)), f(Op::Mul(o2.flux_err, o2.flux_err)));
    let (s, s2) = (number(vs), number(vs2));
    lemma_square_scaled(kk, e, e2, s, s2, v);
    // The quotient.
    lemma_size(a, a);
    lemma_size(b, b);
    lemma_product_rounded(f, ra, ra);
    lemma_product_rounded(f, rb, rb);
    let (na, nb) = (f(Op::Mul(ra, ra)), f(Op::Mul(rb, rb)));
    let (n, n2) = (number(na), number(nb));
    lemma_misfit_sign(f, o, p);
    lemma_misfit_sign(f, o2, q);
    let (c, c2) = (number(misfit(f, o, p)), number(misfit(f, o2, q)));
    assert(misfit(f, o, p) == f(Op::Div(na, vs)));
    assert(misfit(f, o2, q) == f(Op::Div(nb, vs2)));
    lemma_size(c, s);
    lemma_size(c2, s2);
    assert(u * size(c) * size(s) == u * (size(c) * size(s))) by (nonlinear_arith);
    assert(u * size(c2) * size(s2) == u * (size(c2) * size(s2))) by (nonlinear_arith);
    lemma_rounded(c * s, n, u);
    lemma_rounded(c2 * s2, n2, u);
    lemma_quotient_scaled(kk, m, a, b, n, n2, s, s2, c, c2, t2, v);
    assert(4 as real * t2 + 60 as real * v == sensitivity(t));
    let (g, l) = (m * m, (m * m) / s);
    assert(l * s == g) by (nonlinear_arith)
        requires
            l == g / s,
            s > 0 as real,
    ;
    let (d, z) = (size(c2 - c), sensitivity(t));
    assert(d <= z * l) by (nonlinear_arith)
        requires
            d * s <= z * g,
            l * s == g,
            s > 0 as real,
    ;
}

/// The leverages added up.
pub open spec fn total_leverage(f: Arith, observations: Seq<SbplObs>, p: Seq<Real>) -> real
    decreases observations.len(),
{
    if observations.len() == 0 {
        0 as real
    } else {
        total_leverage(f, observations.drop_last(), p) + leverage(f, observations.last(), p)
    }
}

proof fn lemma_exact_chi2_scaled(
    f: Arith,
    k: Real,
    observations: Seq<SbplObs>,
    p: Seq<Real>,
    loga: Real,
    t: real,
)
    requires
        rounds_sums(f),
        rounds_products(f),
        rounds_quotients(f),
        keeps_signs(f),
        p.len() >= N_PARAMS,
        finite(k),
        less(ZERO, k),
        (0 as real) <= t,
        4 as real * t <= 1 as real,
        amplitude_scaled(f, k, p[4], loga, t),
        forall|i: int|
            0 <= i < observations.len() ==> rescales_regularly(
                f,
                k,
                #[trigger] observations[i],
                p,
                loga,
            ),
    ensures
        size(
            exact_chi2(f, rescaled(f, k, observations), p.update(4, loga)) - exact_chi2(
                f,
                observations,
                p,
            ),
        ) <= sensitivity(t) * total_leverage(f, observations, p),
    decreases observations.len(),
{
    let z = sensitivity(t);
    if observations.len() == 0 {
        assert(z * 0 as real == 0 as real) by (nonlinear_arith);
    } else {
        let n = observations.len() - 1;
        let before = observations.drop_last();
        let bright = rescaled(f, k, observations);
        lemma_exact_chi2_scaled(f, k, before, p, loga, t);
        assert(rescales_regularly(f, k, observations[n], p, loga));
        law_misfit_absorbs_factor(f, k, observations[n], p, loga, t);
        assert(bright.drop_last() == rescaled(f, k, before));
        assert(bright.last() == rescaled_obs(f, k, observations[n]));
        let (x, y) = (total_leverage(f, before, p), leverage(f, observations[n], p));
        assert(z * (x + y) == z * x + z * y) by (nonlinear_arith);
    }
}

/// A common factor of fluxes and uncertainties is absorbed by the amplitude: with the
/// amplitude scaled alike up to a relative error `t`, the cost of the scaled observations
/// is that of the observations, but for rounding and `t`.
pub proof fn law_cost_nearly_absorbs_factor(
    f: Arith,
    k: Real,
    observations: Seq<SbplObs>,
    p: Seq<Real>,
    loga: Real,
    t: real,
)
    requires
        rounds_sums(f),
        rounds_products(f),
        rounds_quotients(f),
        counts_exactly(f),
        keeps_signs(f),
        p.len() >= N_PARAMS,
        finite(k),
        less(ZERO, k),
        (0 as real) <= t,
        4 as real * t <= 1 as real,
        amplitude_scaled(f, k, p[4], loga, t),
        forall|i: int|
            0 <= i < observations.len() ==> rescales_regularly(
                f,
                k,
                #[trigger] observations[i],
                p,
                loga,
            ),
        0 < observations.len(),
        countable(observations.len()),
        finite(cost(f, observations, p)),
        finite(cost(f, rescaled(f, k, observations), p.update(4, loga))),
    ensures
        ({
            let n = observations.len();
            let c = cost(f, observations, p);
            let d = cost(f, rescaled(f, k, observations), p.update(4, loga));
            size(number(d) - number(c)) <= sensitivity(t) * total_leverage(f, observations, p)
                / n as real + slack(c, n) + slack(d, n)
        }),
{
    let bright = rescaled(f, k, observations);
    let q = p.update(4, loga);
    let n = observations.len() as real;
    assert forall|i: int| 0 <= i < observations.len() implies finite(
        #[trigger] predicted(f, observations[i], p),
    ) by {
        assert(rescales_regularly(f, k, observations[i], p, loga));
    }
    assert forall|i: int| 0 <= i < bright.len() implies finite(
        #[trigger] predicted(f, bright[i], q),
    ) by {
        assert(rescales_regularly(f, k, observations[i], p, loga));
        assert(bright[i] == rescaled_obs(f, k, observations[i]));
    }
    law_cost_is_mean(f, observations, p);
    law_cost_is_mean(f, bright, q);
    lemma_exact_chi2_scaled(f, k, observations, p, loga, t);
    let (c, d) = (number(cost(f, observations, p)), number(cost(f, bright, q)));
    let (v, w) = (
        slack(cost(f, observations, p), observations.len()),
        slack(cost(f, bright, q), observations.len()),
    );
    let bound = sensitivity(t) * total_leverage(f, observations, p);
    let x = d - c;
    assert(n * x == n * d - n * c) by (nonlinear_arith)
        requires
            x == d - c,
    ;
    lemma_size(n, x);
    let b = bound / n;
    assert(n * b == bound) by (nonlinear_arith)
        requires
            b == bound / n,
            n > 0 as real,
    ;
    assert(n * (b + v + w) == n * b + n * v + n * w) by (nonlinear_arith);
    assert(size(x) <= b + v + w) by (nonlinear_arith)
        requires
            n * size(x) <= n * (b + v + w),
            n > 0 as real,
    ;
}

} // verus!
