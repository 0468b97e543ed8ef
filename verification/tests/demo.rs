use residual_risk::demo::{clamp, mean};

#[test]
fn clamp_limits_to_the_range() {
    assert_eq!(clamp(5, 0, 10), 5);
    assert_eq!(clamp(-3, 0, 10), 0);
    assert_eq!(clamp(12, 0, 10), 10);
    assert_eq!(clamp(i64::MIN, -1, 1), -1);
    assert_eq!(clamp(i64::MAX, -1, 1), 1);
}

#[test]
fn clamp_with_empty_range_returns_lo_below() {
    // lo > hi: below lo gives lo, above hi gives hi.
    assert_eq!(clamp(0, 5, 1), 5);
    assert_eq!(clamp(7, 5, 1), 1);
}

#[test]
fn mean_rounds_down() {
    assert_eq!(mean(1, 2), 1);
    assert_eq!(mean(255, 255), 255);
    assert_eq!(mean(0, 255), 127);
    assert_eq!(mean(10, 20), 15);
}
