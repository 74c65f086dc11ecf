use sbpl::arith::Op;
use sbpl::cost::{SbplCost, SbplObs, ScaledSbplCost, PENALTY};
use sbpl::model::{band_frequency_hz, sbpl_model};
use sbpl::word::{NAN, ZERO};

fn w(x: f64) -> u64 {
    x.to_bits()
}

fn n(x: u64) -> f64 {
    f64::from_bits(x)
}

fn words(xs: &[f64]) -> Vec<u64> {
    xs.iter().map(|x| x.to_bits()).collect()
}

fn alu(op: Op) -> u64 {
    let r = match op {
        Op::Add(x, y) => n(x) + n(y),
        Op::Sub(x, y) => n(x) - n(y),
        Op::Mul(x, y) => n(x) * n(y),
        Op::Div(x, y) => n(x) / n(y),
        Op::Pow(x, y) => n(x).powf(n(y)),
        Op::Square(x) => n(x).powi(2),
        Op::Sqrt(x) => n(x).sqrt(),
        Op::Log10(x) => n(x).log10(),
        Op::Count(k) => k as f64,
    };
    r.to_bits()
}

fn model(t: f64, nu: f64, p: [f64; 7]) -> u64 {
    let [alpha1, alpha2, beta, logd, loga, tb, t0] = p;
    sbpl_model(
        w(t),
        w(nu),
        w(alpha1),
        w(alpha2),
        w(beta),
        w(logd),
        w(loga),
        w(tb),
        w(t0),
        &alu,
    )
}

const TYPICAL: [f64; 7] = [0.8, -1.2, -0.6, -0.5, 0.3, 2.0, 0.25];

fn law(t: f64, nu: f64, p: [f64; 7]) -> f64 {
    let [alpha1, alpha2, beta, logd, loga, tb, t0] = p;
    let tau = (t - t0) / tb;
    let d = 10f64.powf(logd);
    let inner = 0.5 * (1.0 + tau.powf(1.0 / d));
    10f64.powf(loga) * nu.powf(beta) * tau.powf(alpha1) * inner.powf((alpha2 - alpha1) * d)
}

#[test]
fn model_is_the_power_law() {
    for t in [0.3, 1.0, 2.25, 7.5, 40.0] {
        for nu in [0.4, 0.6, 1.1] {
            assert_eq!(model(t, nu, TYPICAL), w(law(t, nu, TYPICAL)));
        }
    }
}

#[test]
fn model_at_the_break_is_the_amplitude() {
    // tau = 1 and nu = 1 leave the amplitude alone.
    let p = [2.0, -3.0, 1.5, 0.0, 1.0, 4.0, 1.0];
    assert_eq!(model(5.0, 1.0, p), w(10.0));
}

#[test]
fn model_is_zero_before_the_start() {
    assert_eq!(model(0.2, 0.5, TYPICAL), ZERO);
}

#[test]
fn model_has_no_value_where_it_is_not_defined() {
    let mut p = TYPICAL;
    p[5] = 0.0;
    assert_eq!(model(1.0, 0.5, p), NAN);
    p[5] = -1.0;
    assert_eq!(model(1.0, 0.5, p), NAN);
    // Even before the start.
    assert_eq!(model(0.2, 0.5, p), NAN);
    assert_eq!(model(1.0, 0.0, TYPICAL), NAN);
    assert_eq!(model(1.0, -0.5, TYPICAL), NAN);
    // tau is zero, infinite or not a number.
    assert_eq!(model(0.25, 0.5, TYPICAL), NAN);
    assert_eq!(model(f64::INFINITY, 0.5, TYPICAL), NAN);
    assert_eq!(model(f64::NAN, 0.5, TYPICAL), NAN);
}

#[test]
fn model_never_answers_with_an_infinity() {
    // The bracket overflows.
    let mut p = TYPICAL;
    p[3] = -3.0;
    assert_eq!(model(1e3, 0.5, p), NAN);
    // The product overflows.
    let mut p = TYPICAL;
    p[4] = 400.0;
    assert_eq!(model(1.0, 0.5, p), NAN);
}

#[test]
fn frequency_is_light_speed_over_wavelength() {
    assert_eq!(
        band_frequency_hz(Some(w(6215.0)), &alu),
        Some(w(2.997_924_58e18 / 6215.0))
    );
    assert_eq!(band_frequency_hz(None, &alu), None);
    for lambda in [0.0, -0.0, -1.0, f64::INFINITY, f64::NAN, f64::NEG_INFINITY] {
        assert_eq!(band_frequency_hz(Some(w(lambda)), &alu), None);
    }
}

fn observation(time: f64, nu: f64, flux: f64, err: f64) -> SbplObs {
    SbplObs {
        time: w(time),
        nu_scaled: w(nu),
        flux: w(flux),
        flux_err: w(err),
    }
}

fn problem() -> SbplCost {
    SbplCost {
        observations: vec![
            observation(1.0, 0.5, 0.7, 0.1),
            observation(2.0, 0.5, 1.0, 0.05),
            observation(3.5, 0.9, 0.4, 0.2),
        ],
    }
}

fn direct_cost(p: [f64; 7]) -> f64 {
    let mut chi2 = 0.0;
    for (t, nu, flux, err) in [
        (1.0, 0.5, 0.7, 0.1),
        (2.0, 0.5, 1.0, 0.05),
        (3.5, 0.9, 0.4, 0.2),
    ] {
        let residual: f64 = flux - law(t, nu, p);
        chi2 += residual * residual / (err * err + 1e-30);
    }
    chi2 / 3.0
}

#[test]
fn cost_is_chi_squared_per_observation() {
    assert_eq!(
        problem().eval(&words(&TYPICAL), &alu),
        w(direct_cost(TYPICAL))
    );
}

#[test]
fn cost_of_an_exact_fit_is_zero() {
    let exact = SbplCost {
        observations: vec![observation(5.0, 1.0, 10.0, 1.0)],
    };
    let p = [2.0, -3.0, 1.5, 0.0, 1.0, 4.0, 1.0];
    assert_eq!(exact.eval(&words(&p), &alu), ZERO);
}

#[test]
fn cost_is_the_penalty_where_the_model_fails() {
    let mut p = TYPICAL;
    p[5] = -1.0;
    assert_eq!(problem().eval(&words(&p), &alu), PENALTY);
    // One observation without a model value is enough.
    let mut p = TYPICAL;
    p[6] = 3.5;
    assert_eq!(problem().eval(&words(&p), &alu), PENALTY);
}

#[test]
fn cost_of_no_observation_is_the_penalty() {
    let none = SbplCost {
        observations: Vec::new(),
    };
    assert_eq!(none.eval(&words(&TYPICAL), &alu), PENALTY);
}

const LOWER: [f64; 7] = [-10.0, -10.0, -5.0, -3.0, -10.0, 1.0, -99.0];
const SCALE: [f64; 7] = [20.0, 20.0, 10.0, 3.0, 20.0, 2.5, 102.5];

#[test]
fn unscaling_clamps_to_the_cube() {
    let inner = problem();
    let cube = ScaledSbplCost {
        inner: &inner,
        lower: words(&LOWER),
        scale: words(&SCALE),
    };
    let xs = [0.25, -0.5, 1.5, 0.0, 1.0, 0.5, 0.1];
    let clamped = [0.25, 0.0, 1.0, 0.0, 1.0, 0.5, 0.1];
    let expected: Vec<u64> = (0..7)
        .map(|i| w(LOWER[i] + clamped[i] * SCALE[i]))
        .collect();
    assert_eq!(cube.unscale(&words(&xs), &alu), expected);
    assert_eq!(
        cube.cost(&words(&xs), &alu),
        cube.cost(&words(&clamped), &alu)
    );
    assert_eq!(cube.cost(&words(&xs), &alu), inner.eval(&expected, &alu));
}

#[test]
fn gradient_is_the_central_difference() {
    let inner = problem();
    let cube = ScaledSbplCost {
        inner: &inner,
        lower: words(&LOWER),
        scale: words(&SCALE),
    };
    // Two coordinates sit on faces of the cube, where the step is one-sided.
    let xs = [0.5, 0.45, 0.4, 0.0, 0.5, 1.0, 0.95];
    let gradient = cube.gradient(&words(&xs), &alu);
    assert_eq!(gradient.len(), 7);
    let h = 1e-5;
    for i in 0..7 {
        let mut up = xs;
        let mut down = xs;
        up[i] = (xs[i] + h).min(1.0);
        down[i] = (xs[i] - h).max(0.0);
        let rise = n(cube.cost(&words(&up), &alu)) - n(cube.cost(&words(&down), &alu));
        assert_eq!(gradient[i], w(rise / (up[i] - down[i])));
    }
}

#[test]
fn gradient_is_zero_where_the_step_has_no_width() {
    let inner = problem();
    let cube = ScaledSbplCost {
        inner: &inner,
        lower: words(&LOWER),
        scale: words(&SCALE),
    };
    let xs = [2.0, 0.45, 0.4, -1.0, 0.5, 0.5, 0.95];
    let gradient = cube.gradient(&words(&xs), &alu);
    assert_eq!(gradient[0], ZERO);
    assert_eq!(gradient[3], ZERO);
    assert_eq!(cube.gradient(&Vec::new(), &alu), Vec::<u64>::new());
}

#[test]
fn gradient_of_few_coordinates_outside_the_cube_is_zero() {
    let inner = problem();
    let cube = ScaledSbplCost {
        inner: &inner,
        lower: words(&LOWER),
        scale: words(&SCALE),
    };
    assert_eq!(cube.gradient(&words(&[2.0]), &alu), vec![ZERO]);
    assert_eq!(
        cube.gradient(&words(&[2.0, -1.0, 1.5, -0.5, 7.0, -9.0]), &alu),
        vec![ZERO; 6]
    );
}

#[test]
fn gradient_away_from_the_faces_takes_the_whole_step() {
    let inner = problem();
    let cube = ScaledSbplCost {
        inner: &inner,
        lower: words(&LOWER),
        scale: words(&SCALE),
    };
    let h = 1e-5;
    let xs = [0.5, 0.45, 0.4, h, 0.5, 1.0 - h, 0.95];
    let gradient = cube.gradient(&words(&xs), &alu);
    for i in 0..7 {
        let mut up = xs;
        let mut down = xs;
        up[i] = xs[i] + h;
        down[i] = xs[i] - h;
        let rise = n(cube.cost(&words(&up), &alu)) - n(cube.cost(&words(&down), &alu));
        assert_eq!(gradient[i], w(rise / (up[i] - down[i])));
    }
}

#[test]
fn longer_wavelength_has_no_higher_frequency() {
    let lambdas = [1e-300, 0.5, 3000.0, 4767.0, 4767.000_000_000_001, 6215.0, 1e300];
    let mut last = f64::INFINITY;
    for lambda in lambdas {
        let nu = n(band_frequency_hz(Some(w(lambda)), &alu).unwrap());
        assert!(nu <= last);
        last = nu;
    }
}

#[test]
fn model_sees_only_the_elapsed_time() {
    for t in [0.3, 1.0, 2.25, 7.5, 40.0, 0.1] {
        let mut from_start = TYPICAL;
        from_start[6] = 0.0;
        assert_eq!(model(t, 0.5, TYPICAL), model(t - TYPICAL[6], 0.5, from_start));
    }
    let mut later = TYPICAL;
    later[6] += 3.0;
    assert_eq!(model(1.5, 0.5, TYPICAL), model(4.5, 0.5, later));
}

#[test]
fn equal_indices_have_no_break() {
    for (t, alpha) in [(1.0, 0.8), (2.25, -1.2), (9.0, 0.0)] {
        for logd in [-1.0, -0.5, -0.25, 0.0, 400.0] {
            let p = [alpha, alpha, -0.6, logd, 0.3, 2.0, 0.25];
            let straight =
                10f64.powf(0.3) * 0.5f64.powf(-0.6) * ((t - 0.25) / 2.0f64).powf(alpha);
            assert_eq!(model(t, 0.5, p), w(straight));
        }
    }
}

/// The model is one at every time after the start.
const LEVEL: [f64; 7] = [0.0, 0.0, 0.0, 0.0, 0.0, 1.0, 0.0];

fn counting_observations(fluxes: &[f64]) -> Vec<SbplObs> {
    fluxes
        .iter()
        .enumerate()
        .map(|(k, flux)| observation(1.0 + k as f64, 0.5, *flux, 1.0))
        .collect()
}

#[test]
fn cost_ignores_order_and_repetition() {
    let once = SbplCost {
        observations: counting_observations(&[4.0, -1.0, 2.0, 8.0]),
    };
    assert_eq!(once.eval(&words(&LEVEL), &alu), w((9.0 + 4.0 + 1.0 + 49.0) / 4.0));
    let mut observations = counting_observations(&[4.0, -1.0, 2.0, 8.0]);
    observations.swap(0, 3);
    observations.swap(1, 2);
    let permuted = SbplCost { observations };
    assert_eq!(permuted.eval(&words(&LEVEL), &alu), once.eval(&words(&LEVEL), &alu));
    let mut observations = counting_observations(&[4.0, -1.0, 2.0, 8.0]);
    observations.extend(counting_observations(&[4.0, -1.0, 2.0, 8.0]));
    let twice = SbplCost { observations };
    assert_eq!(twice.eval(&words(&LEVEL), &alu), once.eval(&words(&LEVEL), &alu));
}

#[test]
fn cost_absorbs_a_common_factor() {
    let faint = SbplCost {
        observations: counting_observations(&[4.0, -1.0, 2.0, 8.0]),
    };
    let mut observations = counting_observations(&[4.0, -1.0, 2.0, 8.0]);
    for o in observations.iter_mut() {
        o.flux = w(100.0 * n(o.flux));
        o.flux_err = w(100.0 * n(o.flux_err));
    }
    let bright = SbplCost { observations };
    let mut brighter = LEVEL;
    brighter[4] = 2.0;
    assert_eq!(
        bright.eval(&words(&brighter), &alu),
        faint.eval(&words(&LEVEL), &alu)
    );
    assert_ne!(
        bright.eval(&words(&LEVEL), &alu),
        faint.eval(&words(&LEVEL), &alu)
    );
}

#[test]
fn unscaling_rises_coordinate_by_coordinate() {
    let inner = problem();
    let cube = ScaledSbplCost {
        inner: &inner,
        lower: words(&LOWER),
        scale: words(&SCALE),
    };
    let xs = [0.3; 7];
    let p = cube.unscale(&words(&xs), &alu);
    for i in 0..7 {
        let mut last = f64::NEG_INFINITY;
        for x in [-1.0, 0.0, 1e-9, 0.3, 0.300_000_000_000_000_1, 0.99, 1.0, 5.0] {
            let mut ys = xs;
            ys[i] = x;
            let q = cube.unscale(&words(&ys), &alu);
            assert!(last <= n(q[i]));
            last = n(q[i]);
            for j in 0..7 {
                if j != i {
                    assert_eq!(q[j], p[j]);
                }
            }
        }
    }
}

#[test]
fn cost_nearly_ignores_order_and_repetition() {
    let once = n(problem().eval(&words(&TYPICAL), &alu));
    let mut permuted = problem();
    permuted.observations.reverse();
    let mut twice = problem();
    twice.observations.extend(problem().observations);
    let slack = |c: f64, n: f64| 2.0 * (n + 1.0) * 2f64.powi(-53) * c;
    let other = n(permuted.eval(&words(&TYPICAL), &alu));
    assert!((once - other).abs() <= slack(once, 3.0) + slack(other, 3.0));
    let other = n(twice.eval(&words(&TYPICAL), &alu));
    assert!((once - other).abs() <= slack(once, 3.0) + slack(other, 6.0));
}

#[test]
fn cost_nearly_absorbs_a_factor() {
    let faint = problem();
    let k: f64 = 3.7;
    let mut bright = problem();
    for o in bright.observations.iter_mut() {
        o.flux = w(k * n(o.flux));
        o.flux_err = w(k * n(o.flux_err));
    }
    let mut p = TYPICAL;
    p[4] += k.log10();
    let (a, b) = (10f64.powf(TYPICAL[4]), 10f64.powf(p[4]));
    let u = 2f64.powi(-53);
    let t = (b - k * a).abs() / (k * a) + 4.0 * u;
    let mut leverage = 0.0;
    for o in &faint.observations {
        let m = n(o.flux).abs() + law(n(o.time), n(o.nu_scaled), TYPICAL).abs();
        leverage += m * m / (n(o.flux_err) * n(o.flux_err));
    }
    let c = n(faint.eval(&words(&TYPICAL), &alu));
    let d = n(bright.eval(&words(&p), &alu));
    let bound = (4.0 * t + 272.0 * u) * leverage / 3.0 + 8.0 * u * (c + d);
    assert!((d - c).abs() <= bound);
    assert!(bound < 1e-9);
}
