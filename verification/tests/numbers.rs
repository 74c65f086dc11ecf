use sbpl::cost::{GRADIENT_STEP, PENALTY, VARIANCE_FLOOR};
use sbpl::model::C_ANGSTROM_PER_SEC;
use sbpl::observe::FREQUENCY_UNIT;
use sbpl::refine::{LBFGS_GRADIENT_TOLERANCE, LBFGS_MAX_ITERS, LBFGS_MEMORY};
use sbpl::swarm::{COGNITIVE_PULL, INERTIA, SOCIAL_PULL};
use sbpl::word::{
    clamp, is_finite, is_nan, is_zero, le, lt, max, min, FIFTEEN, FIVE, HALF, HUNDRED, HUNDREDTH,
    INFINITY, MINUS_FIVE, MINUS_TEN, MINUS_TENTH, MINUS_THREE, NAN, NEG_INFINITY, ONE, SIGN, TEN,
    TENTH, ZERO,
};

fn samples() -> Vec<f64> {
    vec![
        0.0,
        -0.0,
        1.0,
        -1.0,
        0.5,
        -0.5,
        5e-324,
        -5e-324,
        2.2250738585072014e-308,
        2.225073858507201e-308,
        1.0000000000000002,
        1e10,
        -1e10,
        f64::MAX,
        f64::MIN,
        f64::INFINITY,
        f64::NEG_INFINITY,
        f64::NAN,
        -f64::NAN,
    ]
}

#[test]
fn constants_are_what_they_are_named() {
    assert_eq!(ZERO, 0.0f64.to_bits());
    assert_eq!(ONE, 1.0f64.to_bits());
    assert_eq!(HALF, 0.5f64.to_bits());
    assert_eq!(FIVE, 5.0f64.to_bits());
    assert_eq!(TEN, 10.0f64.to_bits());
    assert_eq!(FIFTEEN, 15.0f64.to_bits());
    assert_eq!(HUNDRED, 100.0f64.to_bits());
    assert_eq!(TENTH, 0.1f64.to_bits());
    assert_eq!(HUNDREDTH, 0.01f64.to_bits());
    assert_eq!(MINUS_TENTH, (-0.1f64).to_bits());
    assert_eq!(MINUS_THREE, (-3.0f64).to_bits());
    assert_eq!(MINUS_FIVE, (-5.0f64).to_bits());
    assert_eq!(MINUS_TEN, (-10.0f64).to_bits());
    assert_eq!(INFINITY, f64::INFINITY.to_bits());
    assert_eq!(NEG_INFINITY, f64::NEG_INFINITY.to_bits());
    assert_eq!(NAN, f64::NAN.to_bits());
    assert_eq!(SIGN, (-0.0f64).to_bits());
}

#[test]
fn constants_of_the_fit() {
    assert_eq!(C_ANGSTROM_PER_SEC, 2.997_924_58e18f64.to_bits());
    assert_eq!(FREQUENCY_UNIT, 1e15f64.to_bits());
    assert_eq!(PENALTY, 1e10f64.to_bits());
    assert_eq!(VARIANCE_FLOOR, 1e-30f64.to_bits());
    assert_eq!(GRADIENT_STEP, 1e-5f64.to_bits());
    assert_eq!(INERTIA, 0.7298f64.to_bits());
    assert_eq!(COGNITIVE_PULL, 1.4962f64.to_bits());
    assert_eq!(SOCIAL_PULL, 1.4962f64.to_bits());
    assert_eq!(LBFGS_GRADIENT_TOLERANCE, 1e-7f64.to_bits());
    assert_eq!(LBFGS_MEMORY, 10);
    assert_eq!(LBFGS_MAX_ITERS, 200);
}

#[test]
fn comparisons_agree_with_the_numbers() {
    for x in samples() {
        for y in samples() {
            let (a, b) = (x.to_bits(), y.to_bits());
            assert_eq!(lt(a, b), x < y, "{} < {}", x, y);
            assert_eq!(le(a, b), x <= y, "{} <= {}", x, y);
        }
    }
}

#[test]
fn classes_agree_with_the_numbers() {
    for x in samples() {
        assert_eq!(is_finite(x.to_bits()), x.is_finite());
        assert_eq!(is_nan(x.to_bits()), x.is_nan());
        assert_eq!(is_zero(x.to_bits()), x == 0.0);
    }
}

#[test]
fn extremes_agree_with_the_numbers() {
    for x in samples() {
        for y in samples() {
            let smaller = f64::from_bits(min(x.to_bits(), y.to_bits()));
            let larger = f64::from_bits(max(x.to_bits(), y.to_bits()));
            if x.is_nan() && y.is_nan() {
                assert!(smaller.is_nan() && larger.is_nan());
            } else {
                assert_eq!(smaller, x.min(y));
                assert_eq!(larger, x.max(y));
            }
        }
    }
}

#[test]
fn clamping_agrees_with_the_numbers() {
    for x in samples() {
        for (lo, hi) in [(0.0, 1.0), (-10.0, 10.0), (-3.0, 0.0), (2.0, 2.0)] {
            let c = clamp(x.to_bits(), f64::to_bits(lo), f64::to_bits(hi));
            assert_eq!(c, x.clamp(lo, hi).to_bits());
            assert_eq!(clamp(c, f64::to_bits(lo), f64::to_bits(hi)), c);
        }
    }
}

#[test]
fn finite_numbers_lie_between_the_infinities() {
    for x in samples() {
        if x.is_finite() {
            assert!(lt(NEG_INFINITY, x.to_bits()));
            assert!(lt(x.to_bits(), INFINITY));
        }
    }
    assert!(!lt(NAN, ONE) && !lt(ONE, NAN) && !le(NAN, NAN));
}
