use polylight::bignat::BigNat;
use polylight::power::power_floor;

#[test]
fn square_and_cube_roots() {
    assert_eq!(power_floor(250_000, 1, 2), 500_000);
    assert_eq!(power_floor(4_000_000, 1, 2), 2_000_000);
    assert_eq!(power_floor(2_000_000, 1, 2), 1_414_213);
    assert_eq!(power_floor(8_000_000, 1, 3), 2_000_000);
    assert_eq!(power_floor(1, 1, 2), 1_000);
}

#[test]
fn the_power_one_changes_nothing() {
    assert_eq!(power_floor(0, 1, 1), 0);
    assert_eq!(power_floor(123_456, 1, 1), 123_456);
    assert_eq!(power_floor(123_456, 7, 7), 123_456);
    assert_eq!(power_floor(i64::MAX, 1, 1), i64::MAX);
}

#[test]
fn the_power_zero_is_one() {
    assert_eq!(power_floor(0, 0, 1), 1_000_000);
    assert_eq!(power_floor(5, 0, 3), 1_000_000);
    assert_eq!(power_floor(i64::MAX, 0, 20), 1_000_000);
}

#[test]
fn zero_and_one_are_fixed() {
    assert_eq!(power_floor(0, 9, 20), 0);
    assert_eq!(power_floor(0, 5, 12), 0);
    assert_eq!(power_floor(1_000_000, 9, 20), 1_000_000);
    assert_eq!(power_floor(1_000_000, 5, 12), 1_000_000);
}

#[test]
fn the_exponents_of_the_transfer_functions() {
    assert_eq!(power_floor(1, 9, 20), 1_995);
    assert_eq!(power_floor(1, 5, 12), 3_162);
    assert_eq!(power_floor(i64::MAX, 9, 20), 682_653_587_797);
    assert_eq!(power_floor(i64::MAX, 5, 12), 252_369_801_531);
}

#[test]
fn the_result_is_the_power_rounded_down() {
    let mut v: i64 = 1;
    while v < 4_000_000_000 {
        let exact = (v as f64 / 1e6).powf(0.45) * 1e6;
        let got = power_floor(v, 9, 20) as f64;
        assert!(got <= exact + 1e-6 * exact.max(1.0), "{}", v);
        assert!(got + 1.0 >= exact - 1e-6 * exact.max(1.0), "{}", v);
        v = v * 3 + 1;
    }
}

#[test]
fn the_result_is_the_largest_that_fits() {
    // y^2 <= v * 10^6 < (y + 1)^2, in whole numbers
    for v in [2_i128, 3, 999_999, 1_000_001, 2_000_000, 123_456_789, 9_876_543_210] {
        let y = power_floor(v as i64, 1, 2) as i128;
        assert!(y * y <= v * 1_000_000);
        assert!((y + 1) * (y + 1) > v * 1_000_000);
    }
}

#[test]
fn big_numbers_order() {
    let one = BigNat::from_u64(1);
    let two = BigNat::from_u64(2);
    let zero = BigNat::from_u64(0);
    assert!(zero.le(&one));
    assert!(!one.le(&zero));
    assert!(one.le(&one));
    assert!(one.le(&two));
    assert!(!two.le(&one));
    assert!(zero.le(&zero));
}

#[test]
fn big_numbers_multiply_past_a_word() {
    // 2^64 = 2^32 * 2^32, above every word
    let high = BigNat::from_u64(1 << 32).times(1 << 32);
    let word = BigNat::from_u64(u64::MAX);
    assert!(word.le(&high));
    assert!(!high.le(&word));
    // (2^64 - 1) * (2^64 - 1) < 2^64 * 2^64
    let below = word.times(u64::MAX);
    let above = high.times(1 << 32).times(1 << 32);
    assert!(below.le(&above));
    assert!(!above.le(&below));
    // 3 * 5 * 2^64 = 15 * 2^64, by two ways
    let first = high.times(3).times(5);
    let second = BigNat::from_u64(15).times(1 << 32).times(1 << 32);
    assert!(first.le(&second) && second.le(&first));
}

#[test]
fn big_numbers_times_zero() {
    let big = BigNat::from_u64(u64::MAX).times(u64::MAX).times(u64::MAX);
    let none = big.times(0);
    let zero = BigNat::from_u64(0);
    assert!(none.le(&zero));
    assert!(zero.le(&none));
    assert!(none.le(&big));
    assert!(!big.le(&none));
}

#[test]
fn big_numbers_differ_in_a_low_limb() {
    // 2^128 + 1 and 2^128 + 2
    let base = BigNat::from_u64(1 << 32).times(1 << 32).times(1 << 32).times(1 << 32);
    let one = BigNat::from_u64(1);
    assert!(one.le(&base));
    // 7 * 2^128 and 8 * 2^128
    let seven = base.times(7);
    let eight = base.times(8);
    assert!(seven.le(&eight));
    assert!(!eight.le(&seven));
}
