use rand::rngs::SmallRng;
use rand::{Rng, SeedableRng};

use sbpl::arith::Op;
use sbpl::cost::{SbplCost, SbplObs, ScaledSbplCost};
use sbpl::refine::{accept_refined, lbfgs_refine, scale_point, scale_problem};
use sbpl::swarm::{draw_swarm, fly_swarm, is_drawable, pso_search, Draw, SwarmDraws};

fn w(x: f64) -> u64 {
    x.to_bits()
}

fn n(x: u64) -> f64 {
    f64::from_bits(x)
}

fn words(xs: &[f64]) -> Vec<u64> {
    xs.iter().map(|x| x.to_bits()).collect()
}

fn numbers(xs: &[u64]) -> Vec<f64> {
    xs.iter().map(|x| f64::from_bits(*x)).collect()
}

fn alu(op: Op) -> u64 {
    let r = match op {
        Op::Add(x, y) => n(x) + n(y),
        Op::Sub(x, y) => n(x) - n(y),
        Op::Mul(x, y) => n(x) * n(y),
        Op::Div(x, y) => n(x) / n(y),
        Op::Pow(x, y) => n(x).powf(n(y)),
        Op::Square(x) => n(x).powi(2),
        Op::Sqrt(x) => n(x).sqrt(),
        Op::Log10(x) => n(x).log10(),
        Op::Count(k) => k as f64,
    };
    r.to_bits()
}

fn draw(mut rng: SmallRng, q: Draw) -> (SmallRng, u64) {
    let x: f64 = match q {
        Draw::Unit => rng.random(),
        Draw::Between(lo, hi) => rng.random_range(n(lo)..n(hi)),
    };
    (rng, w(x))
}

const LOWER: [f64; 7] = [-10.0, -10.0, -5.0, -3.0, -10.0, 0.6, -99.5];
const UPPER: [f64; 7] = [10.0, 10.0, 5.0, 0.0, 10.0, 6.0, 6.0];

fn problem() -> SbplCost {
    let mut observations = Vec::new();
    for (k, flux) in [0.5, 0.8, 1.0, 0.7, 0.5, 0.3, 0.2, 0.1].into_iter().enumerate() {
        observations.push(SbplObs {
            time: w(0.5 + 0.75 * k as f64),
            nu_scaled: w(if k % 2 == 0 { 0.5 } else { 0.8 }),
            flux: w(flux),
            flux_err: w(0.05),
        });
    }
    SbplCost { observations }
}

fn eval(problem: &SbplCost, p: &[f64]) -> f64 {
    n(problem.eval(&words(p), &alu))
}

/// The search written out on plain numbers.
fn direct_search(
    problem: &SbplCost,
    n_particles: usize,
    n_iters: usize,
    rng: &mut SmallRng,
) -> (Vec<f64>, f64) {
    let mut pos: Vec<Vec<f64>> = Vec::new();
    let mut vel: Vec<Vec<f64>> = Vec::new();
    for _ in 0..n_particles {
        pos.push((0..7).map(|d| rng.random_range(LOWER[d]..UPPER[d])).collect());
    }
    for _ in 0..n_particles {
        vel.push(
            (0..7)
                .map(|d| {
                    let s = UPPER[d] - LOWER[d];
                    rng.random_range(-0.1 * s..0.1 * s)
                })
                .collect(),
        );
    }
    let mut own = pos.clone();
    let mut own_cost: Vec<f64> = pos.iter().map(|p| eval(problem, p)).collect();
    let mut leader = 0;
    for i in 1..n_particles {
        if own_cost[i] < own_cost[leader] {
            leader = i;
        }
    }
    let mut best = own[leader].clone();
    let mut best_cost = own_cost[leader];
    for _ in 0..n_iters {
        for i in 0..n_particles {
            for d in 0..7 {
                let r1: f64 = rng.random();
                let r2: f64 = rng.random();
                vel[i][d] = 0.7298 * vel[i][d]
                    + 1.4962 * r1 * (own[i][d] - pos[i][d])
                    + 1.4962 * r2 * (best[d] - pos[i][d]);
                pos[i][d] = (pos[i][d] + vel[i][d]).clamp(LOWER[d], UPPER[d]);
            }
            let c = eval(problem, &pos[i]);
            if c < own_cost[i] {
                own_cost[i] = c;
                own[i] = pos[i].clone();
            }
            if c < best_cost {
                best_cost = c;
                best = pos[i].clone();
            }
        }
    }
    (best, best_cost)
}

#[test]
fn search_follows_the_swarm() {
    let problem = problem();
    for (particles, rounds) in [(1, 0), (1, 5), (6, 0), (8, 25)] {
        let mut rng = SmallRng::seed_from_u64(99);
        let (best, best_cost) = direct_search(&problem, particles, rounds, &mut rng);
        let (after, found, found_cost) = pso_search(
            &problem,
            &words(&LOWER),
            &words(&UPPER),
            particles,
            rounds,
            SmallRng::seed_from_u64(99),
            &draw,
            &alu,
        );
        assert_eq!(found, words(&best));
        assert_eq!(found_cost, w(best_cost));
        assert_eq!(after, rng);
    }
}

#[test]
fn search_returns_the_cost_of_what_it_returns() {
    let problem = problem();
    let (_, found, found_cost) = pso_search(
        &problem,
        &words(&LOWER),
        &words(&UPPER),
        10,
        20,
        SmallRng::seed_from_u64(7),
        &draw,
        &alu,
    );
    assert_eq!(found_cost, problem.eval(&found, &alu));
}

#[test]
fn longer_search_is_never_worse_and_stays_inside() {
    let problem = problem();
    let (lower, upper) = (words(&LOWER), words(&UPPER));
    let (_, draws) = draw_swarm(
        &lower,
        &upper,
        6,
        12,
        SmallRng::seed_from_u64(3),
        &draw,
        &alu,
    );
    let mut last = f64::INFINITY;
    for first in &draws.positions {
        last = last.max(eval(&problem, &numbers(first)));
    }
    for rounds in 0..=12 {
        let part = SwarmDraws {
            positions: draws.positions.clone(),
            velocities: draws.velocities.clone(),
            kicks: draws.kicks[..rounds].to_vec(),
        };
        let (best, cost) = fly_swarm(&problem, &lower, &upper, &part, &alu);
        assert!(n(cost) <= last);
        for first in &draws.positions {
            assert!(n(cost) <= eval(&problem, &numbers(first)));
        }
        for d in 0..7 {
            assert!(LOWER[d] <= n(best[d]) && n(best[d]) <= UPPER[d]);
        }
        last = n(cost);
    }
}

#[test]
fn draws_come_in_their_order() {
    // A source that counts: every answer is the number of the request.
    let count = |k: u32, _: Draw| (k + 1, w(k as f64));
    let (after, draws) = draw_swarm(&words(&LOWER), &words(&UPPER), 2, 3, 0u32, &count, &alu);
    assert_eq!(after, 7 * 2 + 7 * 2 + 3 * 2 * 14);
    assert_eq!(draws.positions[1][0], w(7.0));
    assert_eq!(draws.velocities[0][0], w(14.0));
    assert_eq!(draws.velocities[1][6], w(27.0));
    assert_eq!(draws.kicks[0][0][0], w(28.0));
    assert_eq!(draws.kicks[0][0][1], w(29.0));
    assert_eq!(draws.kicks[0][1][0], w(42.0));
    assert_eq!(draws.kicks[2][1][13], w(111.0));
}

#[test]
fn draws_ask_for_their_ranges() {
    let lowest = |k: u32, q: Draw| {
        let x = match q {
            Draw::Unit => w(0.125),
            Draw::Between(lo, _) => lo,
        };
        (k, x)
    };
    let (_, draws) = draw_swarm(&words(&LOWER), &words(&UPPER), 1, 1, 0u32, &lowest, &alu);
    assert_eq!(draws.positions[0], words(&LOWER));
    let expected: Vec<u64> = (0..7).map(|d| w(-0.1 * (UPPER[d] - LOWER[d]))).collect();
    assert_eq!(draws.velocities[0], expected);
    assert_eq!(draws.kicks[0][0], vec![w(0.125); 14]);
    let highest = |k: u32, q: Draw| {
        let x = match q {
            Draw::Unit => w(0.125),
            Draw::Between(_, hi) => hi,
        };
        (k, x)
    };
    let (_, draws) = draw_swarm(&words(&LOWER), &words(&UPPER), 1, 0, 0u32, &highest, &alu);
    assert_eq!(draws.positions[0], words(&UPPER));
    let expected: Vec<u64> = (0..7).map(|d| w(0.1 * (UPPER[d] - LOWER[d]))).collect();
    assert_eq!(draws.velocities[0], expected);
}

const GOOD: [f64; 7] = [0.8, -1.2, -0.6, -0.5, 0.1, 2.0, 0.25];
const BAD: [f64; 7] = [0.8, -1.2, -0.6, -0.5, 3.0, 2.0, 0.25];

fn in_cube(p: [f64; 7]) -> Vec<u64> {
    (0..7)
        .map(|i| w(((p[i] - LOWER[i]) / (UPPER[i] - LOWER[i])).clamp(0.0, 1.0)))
        .collect()
}

#[test]
fn solver_starts_in_the_cube() {
    let inner = problem();
    let cube = scale_problem(&inner, &words(&LOWER), &words(&UPPER), &alu);
    assert_eq!(cube.lower, words(&LOWER));
    let edges: Vec<u64> = (0..7).map(|i| w(UPPER[i] - LOWER[i])).collect();
    assert_eq!(cube.scale, edges);
    assert_eq!(scale_point(&cube, &words(&GOOD), &alu), in_cube(GOOD));
    let far = [50.0, -50.0, 0.0, -1.0, 0.0, 2.0, 0.0];
    let xs = scale_point(&cube, &words(&far), &alu);
    assert_eq!(xs, in_cube(far));
    assert_eq!(xs[0], w(1.0));
    assert_eq!(xs[1], w(0.0));
}

fn refine_with(
    start: [f64; 7],
    outcome: Option<Vec<u64>>,
) -> (Vec<u64>, u64) {
    let problem = problem();
    let start_cost = problem.eval(&words(&start), &alu);
    let polish = |_: &ScaledSbplCost, xs: &Vec<u64>| {
        assert_eq!(*xs, in_cube(start));
        outcome.clone()
    };
    lbfgs_refine(
        &problem,
        words(&start),
        start_cost,
        &words(&LOWER),
        &words(&UPPER),
        &polish,
        &alu,
    )
}

#[test]
fn refinement_takes_an_improvement() {
    let problem = problem();
    let (p, c) = refine_with(BAD, Some(in_cube(GOOD)));
    let expected: Vec<u64> = (0..7)
        .map(|i| w(LOWER[i] + n(in_cube(GOOD)[i]) * (UPPER[i] - LOWER[i])))
        .collect();
    assert_eq!(p, expected);
    assert_eq!(c, problem.eval(&expected, &alu));
    assert!(n(c) < eval(&problem, &BAD));
}

#[test]
fn refinement_falls_back_to_the_start() {
    let problem = problem();
    let start = (words(&GOOD), problem.eval(&words(&GOOD), &alu));
    // A worse end, a failed solver and a solver without a point.
    assert_eq!(refine_with(GOOD, Some(in_cube(BAD))), start);
    assert_eq!(refine_with(GOOD, None), start);
    assert_eq!(refine_with(GOOD, Some(Vec::new())), start);
}

#[test]
fn refinement_takes_only_finite_costs() {
    let inner = problem();
    let cube = scale_problem(&inner, &words(&LOWER), &words(&UPPER), &alu);
    let end = Some(in_cube(GOOD));
    // Nothing is less than a start cost that is not a number.
    let (p, c) = accept_refined(&cube, words(&BAD), w(f64::NAN), &end, &alu);
    assert_eq!(p, words(&BAD));
    assert!(n(c).is_nan());
    let (p, c) = accept_refined(&cube, words(&BAD), w(f64::INFINITY), &end, &alu);
    assert_ne!(p, words(&BAD));
    assert!(n(c).is_finite());
}

#[test]
fn flat_search_returns_the_first_draw() {
    let flat = SbplCost {
        observations: Vec::new(),
    };
    let mut rng = SmallRng::seed_from_u64(5);
    let first: Vec<u64> = (0..7)
        .map(|d| w(rng.random_range(LOWER[d]..UPPER[d])))
        .collect();
    for (particles, rounds) in [(1, 0), (1, 9), (4, 0), (12, 6)] {
        let (_, found, cost) = pso_search(
            &flat,
            &words(&LOWER),
            &words(&UPPER),
            particles,
            rounds,
            SmallRng::seed_from_u64(5),
            &draw,
            &alu,
        );
        assert_eq!(found, first);
        assert_eq!(cost, flat.eval(&first, &alu));
    }
}

#[test]
fn ranges_that_cannot_be_drawn_are_found() {
    assert!(is_drawable(&words(&LOWER), &words(&UPPER), &alu));
    assert!(is_drawable(&Vec::new(), &Vec::new(), &alu));
    for (lo, hi) in [
        (1.0, 1.0),
        (2.0, 1.0),
        (f64::NAN, 1.0),
        (0.0, f64::INFINITY),
        // The distance of finite bounds may be infinite.
        (-1.5e308, 1.5e308),
        // A tenth of the smallest distance is zero.
        (0.0, 5e-324),
    ] {
        assert!(!is_drawable(&words(&[lo]), &words(&[hi]), &alu));
    }
}

#[test]
fn refinement_takes_bounds_of_any_length() {
    let inner = problem();
    let start = (words(&GOOD), inner.eval(&words(&GOOD), &alu));
    let mut longer = LOWER.to_vec();
    longer.push(-1.0);
    let cube = scale_problem(&inner, &words(&longer), &words(&UPPER), &alu);
    assert_eq!(cube.lower.len(), 8);
    assert_eq!(cube.scale.len(), 7);
    let polish = |_: &ScaledSbplCost, xs: &Vec<u64>| {
        assert_eq!(*xs, in_cube(GOOD));
        None
    };
    let end = lbfgs_refine(
        &inner,
        start.0.clone(),
        start.1,
        &words(&longer),
        &words(&UPPER),
        &polish,
        &alu,
    );
    assert_eq!(end, start);
}

#[test]
fn refinement_stays_within_the_bounds() {
    let inner = problem();
    let cube = scale_problem(&inner, &words(&LOWER), &words(&UPPER), &alu);
    for end in [
        [2.0, -1.0, 0.3, 1.5, 0.0, 1.0, 0.9],
        [-3.0, 4.0, 0.99, 0.0, 1.0, 0.0, 1.0],
        [0.1, 0.2, 0.3, 0.4, 0.5, 0.6, 0.7],
    ] {
        let outcome = Some(words(&end));
        let (p, c) = accept_refined(&cube, words(&BAD), w(f64::INFINITY), &outcome, &alu);
        assert_eq!(c, inner.eval(&p, &alu));
        assert_ne!(p, words(&BAD));
        for i in 0..7 {
            assert!(LOWER[i] <= n(p[i]) && n(p[i]) <= UPPER[i]);
        }
    }
}

#[test]
fn search_without_rounds_takes_bounds_of_any_length() {
    let problem = problem();
    let mut longer = LOWER.to_vec();
    longer.push(0.0);
    let search = |lower: &[f64], upper: &[f64]| {
        pso_search(
            &problem,
            &words(lower),
            &words(upper),
            5,
            0,
            SmallRng::seed_from_u64(8),
            &draw,
            &alu,
        )
    };
    let (after, found, cost) = search(&longer, &UPPER);
    assert_eq!(found.len(), 7);
    assert_eq!((after, found, cost), search(&LOWER, &UPPER));
    assert!(is_drawable(&words(&longer), &words(&UPPER), &alu));
}

#[test]
fn refinement_reaches_from_foot_to_head() {
    let inner = problem();
    let (mut lower, mut upper) = (LOWER, UPPER);
    lower[6] = -99.5;
    upper[6] = 0.7;
    let cube = scale_problem(&inner, &words(&lower), &words(&upper), &alu);
    for (x, expected) in [(0.0, -99.5), (1.0, -99.5 + (0.7 + 99.5)), (7.0, -99.5 + (0.7 + 99.5))] {
        let mut end = in_cube(GOOD);
        end[6] = w(x);
        let (p, _) = accept_refined(&cube, words(&BAD), w(f64::INFINITY), &Some(end), &alu);
        assert_eq!(p[6], w(expected));
    }
    // Rounding takes the head past the upper bound.
    assert!(-99.5 + (0.7 + 99.5) > 0.7);
}
