//! Tests of the fixed-precision amount type: construction from
//! mantissa/scale pairs and the truncating arithmetic.

use rebalancer::Dec;

#[test]
fn from_parts_scales_up_small_scales() {
    assert_eq!(Dec::from_parts(12345, 2).unwrap(), Dec::from_units(123_450_000_000));
    assert_eq!(Dec::from_parts(7, 0).unwrap(), Dec::from_whole(7));
    assert_eq!(Dec::from_parts(5, 9).unwrap(), Dec::from_units(5));
}

#[test]
fn from_parts_accepts_trailing_zero_digits_beyond_the_ninth() {
    assert_eq!(Dec::from_parts(1_230_000, 12).unwrap(), Dec::from_units(1_230));
}

#[test]
fn from_parts_rejects_precision_loss() {
    assert!(Dec::from_parts(1_230_000_001, 12).is_none());
}

#[test]
fn from_parts_rejects_negative_values() {
    assert!(Dec::from_parts(-1, 0).is_none());
    assert!(Dec::from_parts(-12345, 4).is_none());
}

#[test]
fn from_parts_rejects_values_that_cannot_fit() {
    assert!(Dec::from_parts(i128::MAX, 0).is_none());
}

#[test]
fn multiplication_truncates_at_the_ninth_digit() {
    let a = Dec::from_parts(1, 9).unwrap();
    // (10^-9)^2 truncates to zero.
    assert_eq!(a.mul(a), Dec::zero());
    let b = Dec::from_parts(15, 1).unwrap();
    assert_eq!(b.mul(b), Dec::from_parts(225, 2).unwrap());
}

#[test]
fn round_up_multiplication_never_vanishes() {
    let tiny = Dec::from_units(1);
    assert_eq!(tiny.mul(tiny), Dec::zero());
    assert_eq!(tiny.mul_up(tiny), Dec::from_units(1));
    // An exact product is unchanged by the rounding.
    let b = Dec::from_parts(15, 1).unwrap();
    assert_eq!(b.mul_up(b), Dec::from_parts(225, 2).unwrap());
}

#[test]
fn division_truncates_at_the_ninth_digit() {
    let one = Dec::from_whole(1);
    let three = Dec::from_whole(3);
    assert_eq!(one.div(three), Dec::from_units(333_333_333));
    assert_eq!(Dec::from_whole(6).div(three), Dec::from_whole(2));
}

#[test]
fn whole_part_truncates() {
    assert_eq!(Dec::from_parts(12999, 3).unwrap().whole_part(), 12);
    assert_eq!(Dec::zero().whole_part(), 0);
}

#[test]
fn checked_operations_report_overflow() {
    let max = Dec::from_units(u128::MAX);
    assert!(max.checked_add(Dec::from_units(1)).is_none());
    assert!(max.checked_mul(max).is_none());
    assert_eq!(
        Dec::from_whole(2).checked_mul(Dec::from_whole(3)).unwrap(),
        Dec::from_whole(6)
    );
    assert_eq!(
        Dec::from_whole(2).checked_add(Dec::from_whole(3)).unwrap(),
        Dec::from_whole(5)
    );
}

#[test]
fn addition_and_subtraction_are_exact() {
    let a = Dec::from_parts(105, 2).unwrap();
    let b = Dec::from_parts(45, 2).unwrap();
    assert_eq!(a.add(b), Dec::from_parts(15, 1).unwrap());
    assert_eq!(a.sub(b), Dec::from_parts(6, 1).unwrap());
}
