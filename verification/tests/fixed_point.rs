use squish::fixed::{isqrt, quot, Fixed, PI_RAW, RAW_LIMIT, SCALE};

#[test]
fn constants_describe_three_decimal_places() {
    assert_eq!(SCALE, 1000);
    assert_eq!(RAW_LIMIT, 1_000_000_000);
    assert_eq!(PI_RAW, 3142);
    assert_eq!(Fixed::one().raw(), 1000);
    assert_eq!(Fixed::zero().raw(), 0);
}

#[test]
fn constructors_scale_and_saturate() {
    assert_eq!(Fixed::from_int(5).raw(), 5000);
    assert_eq!(Fixed::from_int(-5).raw(), -5000);
    assert_eq!(Fixed::from_int(2_000_000).raw(), 1_000_000_000);
    assert_eq!(Fixed::from_int(i64::MIN).raw(), -1_000_000_000);
    assert_eq!(Fixed::from_raw(123).raw(), 123);
    assert_eq!(Fixed::from_raw(i64::MAX).raw(), 1_000_000_000);
    assert_eq!(Fixed::from_raw(-1_000_000_001).raw(), -1_000_000_000);
}

#[test]
fn ratios_round_toward_zero() {
    assert_eq!(Fixed::from_ratio(7, 1000).raw(), 7);
    assert_eq!(Fixed::from_ratio(-1, 3).raw(), -333);
    assert_eq!(Fixed::from_ratio(2, 3).raw(), 666);
    assert_eq!(Fixed::from_ratio(2, -3).raw(), -666);
    assert_eq!(Fixed::from_ratio(1, 0).raw(), 0);
}

#[test]
fn multiplication_rounds_toward_zero() {
    let a = Fixed::from_raw(1500);
    let b = Fixed::from_raw(-333);
    assert_eq!(a.mul(b).raw(), -499);
    assert_eq!(b.mul(a).raw(), -499);
    assert_eq!(Fixed::from_raw(1).mul(Fixed::from_raw(999)).raw(), 0);
    assert_eq!(Fixed::from_raw(-1).mul(Fixed::from_raw(999)).raw(), 0);
}

#[test]
fn division_rounds_toward_zero() {
    assert_eq!(Fixed::from_int(-7).div(Fixed::from_int(2)).raw(), -3500);
    assert_eq!(Fixed::from_int(7).div(Fixed::from_int(-2)).raw(), -3500);
    assert_eq!(Fixed::from_int(1).div(Fixed::from_int(3)).raw(), 333);
    assert_eq!(Fixed::from_int(-1).div(Fixed::from_int(3)).raw(), -333);
    assert_eq!(Fixed::from_raw(1).div(Fixed::from_raw(RAW_LIMIT)).raw(), 0);
}

#[test]
fn division_by_zero_is_zero() {
    assert_eq!(Fixed::from_int(5).div(Fixed::zero()).raw(), 0);
    assert_eq!(Fixed::from_int(-5).div(Fixed::zero()).raw(), 0);
    assert_eq!(Fixed::zero().div(Fixed::zero()).raw(), 0);
}

#[test]
fn arithmetic_saturates_at_the_limit() {
    let top = Fixed::from_raw(RAW_LIMIT);
    let bottom = Fixed::from_raw(-RAW_LIMIT);
    assert_eq!(top.add(Fixed::from_raw(1)).raw(), RAW_LIMIT);
    assert_eq!(bottom.sub(Fixed::from_raw(1)).raw(), -RAW_LIMIT);
    assert_eq!(top.mul(Fixed::from_int(2)).raw(), RAW_LIMIT);
    assert_eq!(bottom.mul(Fixed::from_int(2)).raw(), -RAW_LIMIT);
    assert_eq!(top.div(Fixed::from_raw(1)).raw(), RAW_LIMIT);
    assert_eq!(top.sub(bottom).raw(), RAW_LIMIT);
    assert_eq!(bottom.neg().raw(), RAW_LIMIT);
}

#[test]
fn sums_and_differences_are_exact_in_range() {
    let a = Fixed::from_raw(1234);
    let b = Fixed::from_raw(-4321);
    assert_eq!(a.add(b).raw(), -3087);
    assert_eq!(a.sub(b).raw(), 5555);
    assert_eq!(a.neg().raw(), -1234);
    assert_eq!(b.abs().raw(), 4321);
    assert_eq!(a.abs().raw(), 1234);
    assert_eq!(a.min(b).raw(), -4321);
    assert_eq!(a.max(b).raw(), 1234);
}

#[test]
fn comparisons_follow_the_raw_values() {
    let a = Fixed::from_raw(-2);
    let b = Fixed::from_raw(3);
    assert!(a.lt(b) && a.le(b) && b.gt(a) && b.ge(a));
    assert!(!b.lt(a) && !b.le(a) && !a.gt(b) && !a.ge(b));
    assert!(a.le(a) && a.ge(a) && !a.lt(a) && !a.gt(a));
    assert!(Fixed::zero().is_zero());
    assert!(!Fixed::from_raw(1).is_zero());
    assert!(a == Fixed::from_raw(-2));
    assert!(a != b);
}

#[test]
fn square_roots_round_down() {
    assert_eq!(Fixed::from_int(2).sqrt().raw(), 1414);
    assert_eq!(Fixed::from_raw(500).sqrt().raw(), 707);
    assert_eq!(Fixed::from_raw(1).sqrt().raw(), 31);
    assert_eq!(Fixed::from_int(4).sqrt().raw(), 2000);
    assert_eq!(Fixed::from_raw(RAW_LIMIT).sqrt().raw(), 1_000_000);
    assert_eq!(Fixed::zero().sqrt().raw(), 0);
    assert_eq!(Fixed::from_int(-4).sqrt().raw(), 0);
}

#[test]
fn integer_square_root_is_the_floor() {
    assert_eq!(isqrt(0), 0);
    assert_eq!(isqrt(1), 1);
    assert_eq!(isqrt(3), 1);
    assert_eq!(isqrt(4), 2);
    assert_eq!(isqrt(24), 4);
    assert_eq!(isqrt(25), 5);
    assert_eq!(isqrt(1_000_000_000_000), 1_000_000);
    assert_eq!(isqrt(999_999_999_999), 999_999);
    assert_eq!(isqrt(u128::MAX), 18_446_744_073_709_551_615);
    let n: u128 = 64_000_000_000_000_000_000_000_000_000_000_000_000;
    assert_eq!(isqrt(n), 8_000_000_000_000_000_000);
    assert_eq!(isqrt(n - 1), 7_999_999_999_999_999_999);
}

#[test]
fn wide_quotients_round_toward_zero() {
    assert_eq!(quot(7, 2), 3);
    assert_eq!(quot(-7, 2), -3);
    assert_eq!(quot(7, -2), -3);
    assert_eq!(quot(-7, -2), 3);
    assert_eq!(quot(0, 5), 0);
    assert_eq!(quot(5, 0), 0);
    assert_eq!(quot(i128::MAX, 1), i128::MAX);
    assert_eq!(quot(-i128::MAX, -1), i128::MAX);
}
