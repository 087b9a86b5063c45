//! Tests of the fixed-point scalar and trigonometry layer.

use ekf_slam::fixed::{
    add_fix, sub_fix, mul_fix, div_fix, abs_fix, FIX_MAX, FIX_MIN, HALF_PI_FIX, ONE, PI_FIX,
    QUARTER_PI_FIX, TWO_PI_FIX,
};
use ekf_slam::trig::{atan2_fix, cos_fix, normalize_angle, sin_fix, sqrt_fix};

const SCALE_F: f64 = 65536.0;

fn close(a: i64, real: f64, tol: f64) -> bool {
    (a as f64 / SCALE_F - real).abs() < tol
}

#[test]
fn arithmetic_exact_cases() {
    assert_eq!(add_fix(ONE, ONE), 2 * ONE);
    assert_eq!(sub_fix(ONE, 3 * ONE), -2 * ONE);
    assert_eq!(mul_fix(3 * ONE, 2 * ONE), 6 * ONE);
    assert_eq!(mul_fix(-3 * ONE, 2 * ONE), -6 * ONE);
    assert_eq!(div_fix(6 * ONE, 2 * ONE), 3 * ONE);
    assert_eq!(div_fix(-6 * ONE, 2 * ONE), -3 * ONE);
    assert_eq!(abs_fix(-5), 5);
    // multiplication truncates toward zero
    assert_eq!(mul_fix(1, 1), 0);
    assert_eq!(mul_fix(-1, 1), 0);
}

#[test]
fn arithmetic_saturates() {
    assert_eq!(add_fix(FIX_MAX, ONE), FIX_MAX);
    assert_eq!(sub_fix(FIX_MIN, ONE), FIX_MIN);
    assert_eq!(mul_fix(FIX_MAX, 2 * ONE), FIX_MAX);
    assert_eq!(mul_fix(FIX_MAX, -2 * ONE), FIX_MIN);
}

#[test]
fn angle_wrapping() {
    assert_eq!(normalize_angle(0), 0);
    assert_eq!(normalize_angle(PI_FIX), PI_FIX);
    assert_eq!(normalize_angle(PI_FIX + 1), PI_FIX + 1 - TWO_PI_FIX);
    assert_eq!(normalize_angle(-PI_FIX), PI_FIX);
    assert_eq!(normalize_angle(TWO_PI_FIX), 0);
    assert_eq!(normalize_angle(7 * TWO_PI_FIX + 123), 123);
    assert_eq!(normalize_angle(-5 * TWO_PI_FIX - 123), -123);
    for theta in [i64::MIN, -987654321, -1, 0, 1, 987654321, i64::MAX] {
        let r = normalize_angle(theta);
        assert!(r > -PI_FIX && r <= PI_FIX);
    }
}

#[test]
fn trig_values() {
    assert_eq!(sin_fix(0), 0);
    assert_eq!(cos_fix(0), ONE);
    assert!(close(sin_fix(HALF_PI_FIX), 1.0, 1e-3));
    assert!(close(cos_fix(HALF_PI_FIX), 0.0, 1e-3));
    assert!(close(sin_fix(PI_FIX), 0.0, 1e-3));
    assert!(close(cos_fix(PI_FIX), -1.0, 1e-3));
    assert!(close(sin_fix(QUARTER_PI_FIX), 0.70710678, 1e-3));
    assert!(close(cos_fix(-QUARTER_PI_FIX), 0.70710678, 1e-3));
    assert!(close(sin_fix(-HALF_PI_FIX), -1.0, 1e-3));
    // periodicity through wrapping
    assert_eq!(sin_fix(TWO_PI_FIX), sin_fix(0));
}

#[test]
fn atan2_values() {
    assert_eq!(atan2_fix(0, ONE), 0);
    assert_eq!(atan2_fix(ONE, 0), HALF_PI_FIX);
    assert_eq!(atan2_fix(-ONE, 0), -HALF_PI_FIX);
    assert_eq!(atan2_fix(0, -ONE), PI_FIX);
    assert_eq!(atan2_fix(0, 0), 0);
    assert!(close(atan2_fix(ONE, ONE), 0.78539816, 2e-3));
    assert!(close(atan2_fix(ONE, -ONE), 2.35619449, 2e-3));
    assert!(close(atan2_fix(-ONE, -ONE), -2.35619449, 2e-3));
    assert!(close(atan2_fix(3 * ONE, 4 * ONE), 0.64350111, 2e-3));
}

#[test]
fn sqrt_values() {
    assert_eq!(sqrt_fix(0), 0);
    assert_eq!(sqrt_fix(ONE), ONE);
    assert_eq!(sqrt_fix(4 * ONE), 2 * ONE);
    assert_eq!(sqrt_fix(25 * ONE), 5 * ONE);
    assert!(close(sqrt_fix(2 * ONE), 1.41421356, 1e-4));
    // the result is the greatest scalar whose square fits
    let r = sqrt_fix(3 * ONE);
    let rr = mul_fix(r, r);
    let r1 = mul_fix(r + 1, r + 1);
    assert!(rr <= 3 * ONE && 3 * ONE < r1);
}
