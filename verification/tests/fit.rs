use argmin::solver::linesearch::MoreThuenteLineSearch;
use argmin::solver::quasinewton::LBFGS;
use rand::rngs::SmallRng;
use rand::{Rng, SeedableRng};

use sbpl::arith::Op;
use sbpl::bands::{name_precedes, sort_bands, Band, BandData};
use sbpl::cost::{SbplCost, ScaledSbplCost};
use sbpl::fit::{
    conclude, fit_from, fit_sbpl, is_searchable, pick_best, standard_deviation, to_physical,
};
use sbpl::observe::{find_flux_unit, gather, normalise};
use sbpl::refine::{LBFGS_GRADIENT_TOLERANCE, LBFGS_MAX_ITERS, LBFGS_MEMORY};
use sbpl::result::SbplResult;
use sbpl::swarm::{pso_search, Draw};
use sbpl::word::{ONE, ZERO};

fn w(x: f64) -> u64 {
    x.to_bits()
}

fn n(x: u64) -> f64 {
    f64::from_bits(x)
}

fn words(xs: &[f64]) -> Vec<u64> {
    xs.iter().map(|x| x.to_bits()).collect()
}

fn numbers(xs: &[u64]) -> Vec<f64> {
    xs.iter().map(|x| f64::from_bits(*x)).collect()
}

fn alu(op: Op) -> u64 {
    let r = match op {
        Op::Add(x, y) => n(x) + n(y),
        Op::Sub(x, y) => n(x) - n(y),
        Op::Mul(x, y) => n(x) * n(y),
        Op::Div(x, y) => n(x) / n(y),
        Op::Pow(x, y) => n(x).powf(n(y)),
        Op::Square(x) => n(x).powi(2),
        Op::Sqrt(x) => n(x).sqrt(),
        Op::Log10(x) => n(x).log10(),
        Op::Count(k) => k as f64,
    };
    r.to_bits()
}

fn draw(mut rng: SmallRng, q: Draw) -> (SmallRng, u64) {
    let x: f64 = match q {
        Draw::Unit => rng.random(),
        Draw::Between(lo, hi) => rng.random_range(n(lo)..n(hi)),
    };
    (rng, w(x))
}

struct Cube<'a> {
    cube: &'a ScaledSbplCost<'a>,
}

impl argmin::core::CostFunction for Cube<'_> {
    type Param = Vec<f64>;
    type Output = f64;

    fn cost(&self, xs: &Vec<f64>) -> Result<f64, argmin::core::Error> {
        Ok(n(self.cube.cost(&words(xs), &alu)))
    }
}

impl argmin::core::Gradient for Cube<'_> {
    type Param = Vec<f64>;
    type Gradient = Vec<f64>;

    fn gradient(&self, xs: &Vec<f64>) -> Result<Vec<f64>, argmin::core::Error> {
        Ok(numbers(&self.cube.gradient(&words(xs), &alu)))
    }
}

fn polish(cube: &ScaledSbplCost, xs: &Vec<u64>) -> Option<Vec<u64>> {
    let solver = LBFGS::new(MoreThuenteLineSearch::new(), LBFGS_MEMORY)
        .with_tolerance_grad(n(LBFGS_GRADIENT_TOLERANCE))
        .ok()?;
    let start = numbers(xs);
    let end = argmin::core::Executor::new(Cube { cube }, solver)
        .configure(|state| state.param(start).max_iters(LBFGS_MAX_ITERS))
        .run()
        .ok()?;
    Some(words(&end.state().best_param.clone().unwrap_or_default()))
}

fn no_polish(_: &ScaledSbplCost, _: &Vec<u64>) -> Option<Vec<u64>> {
    None
}

fn band(name: &str, wavelength: Option<f64>, points: &[(f64, f64, f64)]) -> Band {
    Band {
        name: name.to_string(),
        wavelength: wavelength.map(w),
        data: BandData {
            times: points.iter().map(|p| w(p.0)).collect(),
            values: points.iter().map(|p| w(p.1)).collect(),
            errors: points.iter().map(|p| w(p.2)).collect(),
        },
    }
}

const TRUTH: [f64; 7] = [0.9, -1.4, -0.7, -0.6, 0.0, 3.0, 0.2];

fn truth(t: f64, nu: f64) -> f64 {
    let [alpha1, alpha2, beta, logd, loga, tb, t0] = TRUTH;
    let tau = (t - t0) / tb;
    let d = 10f64.powf(logd);
    let inner = 0.5 * (1.0 + tau.powf(1.0 / d));
    10f64.powf(loga) * nu.powf(beta) * tau.powf(alpha1) * inner.powf((alpha2 - alpha1) * d)
}

fn light_curve(name: &str, wavelength: f64, shift: f64, count: usize) -> Band {
    let nu = 2.997_924_58e18 / wavelength / 1e15;
    let points: Vec<(f64, f64, f64)> = (0..count)
        .map(|k| {
            let t = 0.5 + shift + 0.9 * k as f64;
            let flux = truth(t, nu);
            (t, flux, 0.03 * flux)
        })
        .collect();
    band(name, Some(wavelength), &points)
}

fn light_curves() -> Vec<Band> {
    vec![
        light_curve("r", 6215.0, 0.0, 8),
        light_curve("g", 4767.0, 0.2, 8),
        light_curve("i", 7545.0, 0.4, 6),
    ]
}

fn bits(r: &Option<SbplResult>) -> String {
    format!("{:?}", r)
}

#[test]
fn fit_finds_a_good_description() {
    let bands = light_curves();
    assert!(is_searchable(&bands, &alu));
    let out = fit_sbpl(&bands, &draw, &polish, &alu).unwrap();
    assert_eq!(out.n_obs, 22);
    assert_eq!(out.n_bands, 3);
    let chi2 = n(out.reduced_chi2.unwrap());
    assert!(chi2 < 1.0, "{}", chi2);
    // All fluxes scale with the frequency alone between bands.
    assert!((n(out.beta.unwrap()) - TRUTH[2]).abs() < 0.2);
    for v in [
        out.alpha1,
        out.alpha2,
        out.beta,
        out.logd,
        out.loga,
        out.tb,
        out.t0,
        out.alpha1_err,
        out.alpha2_err,
        out.beta_err,
        out.logd_err,
        out.loga_err,
        out.tb_err,
        out.t0_err,
    ] {
        assert!(n(v.unwrap()).is_finite());
    }
}

#[test]
fn fit_is_deterministic() {
    let bands = light_curves();
    let first = fit_sbpl(&bands, &draw, &no_polish, &alu);
    let second = fit_sbpl(&bands, &draw, &no_polish, &alu);
    assert_eq!(bits(&first), bits(&second));
}

#[test]
fn fit_seeds_the_small_generator() {
    let bands = light_curves();
    let seeded = fit_sbpl(&bands, &draw, &no_polish, &alu);
    let rng = SmallRng::seed_from_u64(1234);
    assert_eq!(
        bits(&seeded),
        bits(&fit_from(&bands, rng, &draw, &no_polish, &alu))
    );
    let rng = SmallRng::seed_from_u64(1235);
    assert_ne!(
        bits(&seeded),
        bits(&fit_from(&bands, rng, &draw, &no_polish, &alu))
    );
}

#[test]
fn fit_reports_the_best_restart() {
    let bands = light_curves();
    let out = fit_sbpl(&bands, &draw, &no_polish, &alu).unwrap();
    let g = gather(&bands, &alu);
    let unit = find_flux_unit(&g.observations);
    let problem = SbplCost {
        observations: normalise(&g.observations, unit, &alu),
    };
    let (t_min, t_max) = (n(g.t_min), n(g.t_max));
    let lower = words(&[
        -10.0,
        -10.0,
        -5.0,
        -3.0,
        -10.0,
        t_min + 0.01 * (t_max - t_min),
        t_min - 100.0,
    ]);
    let upper = words(&[10.0, 10.0, 5.0, 0.0, 10.0, t_max, t_max]);
    let mut rng = SmallRng::seed_from_u64(1234);
    let mut runs = Vec::new();
    for _ in 0..3 {
        let (after, params, cost) =
            pso_search(&problem, &lower, &upper, 30, 200, rng, &draw, &alu);
        assert_eq!(cost, problem.eval(&params, &alu));
        rng = after;
        runs.push((params, cost));
    }
    let (params, cost) = pick_best(&lower, &runs);
    for run in &runs {
        assert!(n(cost) <= n(run.1));
    }
    assert_eq!(out.reduced_chi2, Some(cost));
    assert_eq!(out.alpha1, Some(params[0]));
    assert_eq!(out.beta, Some(params[2]));
    assert_eq!(out.t0, Some(params[6]));
    let loga = n(params[4]) + n(unit).log10() - 15.0 * n(params[2]);
    assert_eq!(out.loga, Some(w(loga)));
    let spread = standard_deviation(&runs.iter().map(|r| r.0[5]).collect(), &alu);
    assert_eq!(out.tb_err, Some(spread));
}

#[test]
fn fit_does_not_depend_on_the_order_of_bands() {
    let bands = light_curves();
    let mut reversed = light_curves();
    reversed.reverse();
    assert_eq!(
        bits(&fit_sbpl(&bands, &draw, &no_polish, &alu)),
        bits(&fit_sbpl(&reversed, &draw, &no_polish, &alu))
    );
}

#[test]
fn fit_skips_unknown_bands() {
    let bands = light_curves();
    let mut more = light_curves();
    // The lengths of an unknown band do not even have to agree.
    let mut unknown = band("a", None, &[(1.0, 5.0, 0.1)]);
    unknown.data.errors = Vec::new();
    more.push(unknown);
    more.push(band("z", Some(-1.0), &[(1.0, 5.0, 0.1)]));
    assert_eq!(
        bits(&fit_sbpl(&bands, &draw, &no_polish, &alu)),
        bits(&fit_sbpl(&more, &draw, &no_polish, &alu))
    );
}

#[test]
fn fit_ignores_unusable_observations() {
    let bands = light_curves();
    let mut more = light_curves();
    for (t, flux, err) in [
        (f64::NAN, 1.0, 0.1),
        (1.0, f64::INFINITY, 0.1),
        (1.0, 1.0, f64::NAN),
        (1.0, 1.0, 0.0),
        (1.0, 1.0, -0.1),
    ] {
        more[1].data.times.push(w(t));
        more[1].data.values.push(w(flux));
        more[1].data.errors.push(w(err));
    }
    assert_eq!(
        bits(&fit_sbpl(&bands, &draw, &no_polish, &alu)),
        bits(&fit_sbpl(&more, &draw, &no_polish, &alu))
    );
}

#[test]
fn fit_with_too_few_observations_is_none() {
    let six = vec![
        light_curve("g", 4767.0, 0.0, 3),
        light_curve("r", 6215.0, 0.0, 3),
    ];
    assert!(fit_sbpl(&six, &draw, &no_polish, &alu).is_none());
    assert!(fit_sbpl(&Vec::new(), &draw, &no_polish, &alu).is_none());
    let seven = vec![
        light_curve("g", 4767.0, 0.0, 4),
        light_curve("r", 6215.0, 0.0, 3),
    ];
    let out = fit_sbpl(&seven, &draw, &no_polish, &alu).unwrap();
    assert_eq!(out.n_obs, 7);
    assert!(out.alpha1.is_some());
}

#[test]
fn fit_of_one_band_reports_only_counts() {
    let one = vec![
        light_curve("g", 4767.0, 0.0, 9),
        light_curve("r", 6215.0, 0.0, 0),
    ];
    let out = fit_sbpl(&one, &draw, &no_polish, &alu);
    assert_eq!(bits(&out), bits(&Some(SbplResult::empty(9, 1))));
}

#[test]
fn fit_without_duration_reports_only_counts() {
    let points = [(2.0, 1.0, 0.1); 4];
    let bands = vec![
        band("g", Some(4767.0), &points),
        band("r", Some(6215.0), &points),
    ];
    let out = fit_sbpl(&bands, &draw, &no_polish, &alu);
    assert_eq!(bits(&out), bits(&Some(SbplResult::empty(8, 2))));
}

#[test]
fn endless_duration_is_not_searchable() {
    let mut bands = light_curves();
    bands[0].data.times[0] = w(-1.5e308);
    bands[1].data.times[0] = w(1.5e308);
    assert!(!is_searchable(&bands, &alu));
    assert!(is_searchable(&Vec::new(), &alu));
}

#[test]
fn empty_result_reports_nothing() {
    let out = SbplResult::empty(5, 1);
    assert_eq!(out.n_obs, 5);
    assert_eq!(out.n_bands, 1);
    assert!(out.alpha1.is_none() && out.t0_err.is_none() && out.reduced_chi2.is_none());
}

#[test]
fn names_are_ordered_by_code_points() {
    let names = ["", "G", "g", "gg", "i", "r", "u", "z", "\u{e9}", "\u{ffee}", "\u{10000}"];
    for a in names {
        for b in names {
            let (a, b) = (a.to_string(), b.to_string());
            assert_eq!(name_precedes(&a, &b), a < b, "{:?} {:?}", a, b);
        }
    }
}

#[test]
fn bands_are_sorted_by_name() {
    let names = ["z", "g", "", "r", "i", "gr"];
    let bands: Vec<Band> = names.iter().map(|name| band(name, None, &[])).collect();
    assert_eq!(sort_bands(&bands), vec![2, 1, 5, 4, 3, 0]);
}

#[test]
fn gathering_goes_band_by_band() {
    let bands = vec![
        band("r", Some(6000.0), &[(3.0, 1.0, 0.1), (1.0, -2.0, 0.2)]),
        band("g", Some(5000.0), &[(2.0, 4.0, 0.3), (9.0, 1.0, 0.0)]),
        band("u", Some(3000.0), &[(f64::NAN, 1.0, 0.1)]),
    ];
    let g = gather(&bands, &alu);
    // The band without a usable observation is counted as well.
    assert_eq!(g.n_bands, 3);
    let times: Vec<f64> = g.observations.iter().map(|o| n(o.time)).collect();
    assert_eq!(times, vec![2.0, 3.0, 1.0]);
    assert_eq!(g.t_min, w(1.0));
    assert_eq!(g.t_max, w(3.0));
    assert_eq!(
        g.observations[0].nu_scaled,
        w(2.997_924_58e18 / 5000.0 / 1e15)
    );
    let unit = find_flux_unit(&g.observations);
    assert_eq!(unit, w(4.0));
    let normalised = normalise(&g.observations, unit, &alu);
    let fluxes: Vec<f64> = normalised.iter().map(|o| n(o.flux)).collect();
    assert_eq!(fluxes, vec![1.0, 0.25, -0.5]);
    assert_eq!(normalised[2].flux_err, w(0.2 / 4.0));
    assert_eq!(normalised[2].time, w(1.0));
}

#[test]
fn flux_unit_without_positive_flux_is_one() {
    let bands = vec![band("r", Some(6000.0), &[(3.0, -1.0, 0.1), (1.0, 0.0, 0.2)])];
    let g = gather(&bands, &alu);
    assert_eq!(find_flux_unit(&g.observations), ONE);
    assert_eq!(find_flux_unit(&Vec::new()), ONE);
}

#[test]
fn best_outcome_is_the_first_of_the_cheapest() {
    let fallback = words(&[9.0]);
    let run = |x: f64, c: f64| (words(&[x]), w(c));
    let runs = vec![run(1.0, 3.0), run(2.0, 2.0), run(3.0, 2.0), run(4.0, f64::NAN)];
    assert_eq!(pick_best(&fallback, &runs), run(2.0, 2.0));
    let hopeless = vec![run(1.0, f64::INFINITY), run(2.0, f64::NAN)];
    assert_eq!(pick_best(&fallback, &hopeless), run(9.0, f64::INFINITY));
}

#[test]
fn amplitude_becomes_physical() {
    let p = words(&[1.0, 2.0, -0.5, -1.0, 0.25, 3.0, 4.0]);
    let expected = words(&[1.0, 2.0, -0.5, -1.0, 0.25 + 2.0 - 15.0 * -0.5, 3.0, 4.0]);
    assert_eq!(to_physical(&p, w(2.0), &alu), expected);
}

#[test]
fn deviation_is_that_of_the_population() {
    assert_eq!(standard_deviation(&words(&[1.0, 3.0]), &alu), w(1.0));
    assert_eq!(standard_deviation(&words(&[2.0, 2.0, 2.0]), &alu), ZERO);
}

#[test]
fn conclusion_reports_the_best_and_the_spread() {
    let a = [1.0, -2.0, 0.0, -1.0, 0.5, 3.0, 0.0];
    let b = [3.0, -2.0, 0.0, -1.0, 2.5, 5.0, f64::INFINITY];
    let runs = vec![(words(&a), w(4.0)), (words(&b), w(2.0))];
    let out = conclude(&runs, &words(&[0.0; 7]), w(100.0), 8, 2, &alu);
    assert_eq!(out.alpha1, Some(w(3.0)));
    assert_eq!(out.alpha2, Some(w(-2.0)));
    assert_eq!(out.loga, Some(w(4.5)));
    assert_eq!(out.tb, Some(w(5.0)));
    assert_eq!(out.t0, None);
    assert_eq!(out.alpha1_err, Some(w(1.0)));
    assert_eq!(out.alpha2_err, Some(ZERO));
    assert_eq!(out.loga_err, Some(w(1.0)));
    assert_eq!(out.t0_err, None);
    assert_eq!(out.reduced_chi2, Some(w(2.0)));
    assert_eq!(out.n_obs, 8);
    assert_eq!(out.n_bands, 2);
    let nothing = conclude(&Vec::new(), &words(&[0.0; 7]), w(100.0), 8, 2, &alu);
    assert_eq!(bits(&Some(nothing)), bits(&Some(SbplResult::empty(8, 2))));
}

#[test]
fn fit_skips_bands_without_measurements() {
    let bands = light_curves();
    let mut more = light_curves();
    more.insert(1, band("h", Some(5500.0), &[]));
    more.push(band("a", None, &[]));
    // Unusable measurements may come first and in between.
    for at in [0, 3] {
        more[0].data.times.insert(at, w(1e9));
        more[0].data.values.insert(at, w(f64::NAN));
        more[0].data.errors.insert(at, w(0.1));
    }
    assert_eq!(
        bits(&fit_sbpl(&bands, &draw, &no_polish, &alu)),
        bits(&fit_sbpl(&more, &draw, &no_polish, &alu))
    );
}

#[test]
fn rescaling_changes_the_amplitude_only() {
    let bands = light_curves();
    let mut bright = light_curves();
    let k = 1048576.0;
    for b in bright.iter_mut() {
        for v in b.data.values.iter_mut().chain(b.data.errors.iter_mut()) {
            *v = w(k * n(*v));
        }
    }
    let mut a = fit_sbpl(&bands, &draw, &no_polish, &alu).unwrap();
    let mut b = fit_sbpl(&bright, &draw, &no_polish, &alu).unwrap();
    let (loga, shifted) = (n(a.loga.unwrap()), n(b.loga.unwrap()));
    assert!((shifted - loga - k.log10()).abs() < 1e-9);
    let (spread, kept) = (n(a.loga_err.unwrap()), n(b.loga_err.unwrap()));
    assert!((spread - kept).abs() < 1e-9);
    a.loga = None;
    b.loga = None;
    a.loga_err = None;
    b.loga_err = None;
    assert_eq!(bits(&Some(a)), bits(&Some(b)));
}

#[test]
fn reported_parameters_lie_within_their_bounds() {
    let bands = light_curves();
    let g = gather(&bands, &alu);
    let (t_min, t_max) = (n(g.t_min), n(g.t_max));
    // A solver that ends outside the cube.
    let outside = |_: &ScaledSbplCost, xs: &Vec<u64>| {
        Some(xs.iter().map(|x| w(3.0 * n(*x) - 1.0)).collect())
    };
    for out in [
        fit_sbpl(&bands, &draw, &no_polish, &alu).unwrap(),
        fit_sbpl(&bands, &draw, &outside, &alu).unwrap(),
    ] {
        for (v, lo, hi) in [
            (out.alpha1, -10.0, 10.0),
            (out.alpha2, -10.0, 10.0),
            (out.beta, -5.0, 5.0),
            (out.logd, -3.0, 0.0),
            (out.tb, t_min + 0.01 * (t_max - t_min), t_max),
            (out.t0, t_min - 100.0, t_max),
        ] {
            let x = n(v.unwrap());
            assert!(lo <= x && x <= hi);
        }
    }
}

#[test]
fn smallest_duration_is_not_searchable() {
    let points = [(0.0, 1.0, 0.1), (0.0, 1.0, 0.1), (0.0, 1.0, 0.1), (5e-324, 1.0, 0.1)];
    let bands = vec![
        band("g", Some(4767.0), &points),
        band("r", Some(6215.0), &points),
    ];
    assert!(!is_searchable(&bands, &alu));
}
