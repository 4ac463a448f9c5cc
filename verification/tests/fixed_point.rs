use polylight::fixed::{div_round, saturate, SCALE};

#[test]
fn scale_is_a_million() {
    assert_eq!(SCALE, 1_000_000);
}

#[test]
fn div_round_rounds_to_nearest() {
    assert_eq!(div_round(14, 10), 1);
    assert_eq!(div_round(16, 10), 2);
    assert_eq!(div_round(-14, 10), -1);
    assert_eq!(div_round(-16, 10), -2);
    assert_eq!(div_round(0, 7), 0);
    assert_eq!(div_round(21, 7), 3);
    assert_eq!(div_round(-21, 7), -3);
}

#[test]
fn div_round_sends_ties_upwards() {
    assert_eq!(div_round(5, 10), 1);
    assert_eq!(div_round(15, 10), 2);
    assert_eq!(div_round(-5, 10), 0);
    assert_eq!(div_round(-15, 10), -1);
    assert_eq!(div_round(1, 2), 1);
    assert_eq!(div_round(-1, 2), 0);
}

#[test]
fn div_round_takes_its_limits() {
    let limit: i128 = 1 << 125;
    assert_eq!(div_round(limit, 1), limit);
    assert_eq!(div_round(-limit, 1), -limit);
    assert_eq!(div_round(limit, limit), 1);
    assert_eq!(div_round(-limit, limit), -1);
    assert_eq!(div_round(1, limit), 0);
}

#[test]
fn saturate_keeps_what_fits() {
    assert_eq!(saturate(0), 0);
    assert_eq!(saturate(-17), -17);
    assert_eq!(saturate(i64::MAX as i128), i64::MAX);
    assert_eq!(saturate(i64::MIN as i128), i64::MIN);
}

#[test]
fn saturate_cuts_what_does_not_fit() {
    assert_eq!(saturate(i64::MAX as i128 + 1), i64::MAX);
    assert_eq!(saturate(i64::MIN as i128 - 1), i64::MIN);
    assert_eq!(saturate(i128::MAX), i64::MAX);
    assert_eq!(saturate(i128::MIN), i64::MIN);
}
