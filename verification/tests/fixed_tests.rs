use perceptron::fixed::{div_scale, exp_approx, leaky_ramp, tanh_approx, SCALE};

#[test]
fn exp_of_zero_is_one_unit() {
    assert_eq!(exp_approx(0), SCALE);
}

#[test]
fn exp_of_one_is_eulers_number() {
    assert_eq!(exp_approx(SCALE), 178145);
}

#[test]
fn exp_of_minus_one() {
    assert_eq!(exp_approx(-SCALE), 24109);
}

#[test]
fn exp_sample_ordering() {
    assert!(exp_approx(-SCALE) < exp_approx(0));
    assert!(exp_approx(0) < exp_approx(SCALE));
    assert!(exp_approx(i64::MIN + 1) >= 1);
    assert!(exp_approx(i64::MAX) <= 3 * 43046721 * SCALE);
}

#[test]
fn tanh_of_zero_is_zero() {
    assert_eq!(tanh_approx(0), 0);
}

#[test]
fn tanh_is_odd() {
    let x: i64 = 30000;
    assert_eq!(tanh_approx(-x), -tanh_approx(x));
}

#[test]
fn tanh_of_one_near_reference() {
    // tanh(1) ~ 0.7616, that is ~49912 in SCALE units.
    let t = tanh_approx(SCALE);
    assert!(45000 < t && t < 55000);
}

#[test]
fn tanh_saturates_inside_one_unit() {
    let t = tanh_approx(10 * SCALE);
    assert!(60000 < t && t < SCALE);
    let t2 = tanh_approx(-10 * SCALE);
    assert!(-SCALE < t2 && t2 < -60000);
}

#[test]
fn leaky_ramp_values() {
    assert_eq!(leaky_ramp(10), 10);
    assert_eq!(leaky_ramp(0), 0);
    assert_eq!(leaky_ramp(-10), -2);
    assert_eq!(leaky_ramp(-7), -1);
}

#[test]
fn div_scale_rounds_toward_zero() {
    assert_eq!(div_scale(SCALE), 1);
    assert_eq!(div_scale(-SCALE), -1);
    assert_eq!(div_scale(-(SCALE - 1)), 0);
    assert_eq!(div_scale(2 * SCALE - 1), 1);
}
