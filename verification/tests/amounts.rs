use orderbook::amount::{Amount, MAX_COEFFICIENT, MAX_SCALE};
use rust_decimal::Decimal;
use std::cmp::Ordering;

fn decimal(a: &Amount) -> Decimal {
    Decimal::from_i128_with_scale(a.mantissa(), a.scale())
}

#[test]
fn limits_of_the_representation() {
    assert_eq!(MAX_SCALE, 28);
    assert_eq!(MAX_COEFFICIENT, 79_228_162_514_264_337_593_543_950_335);
    assert_eq!(MAX_COEFFICIENT, (1i128 << 96) - 1);
}

#[test]
fn new_keeps_coefficient_and_scale() {
    let a = Amount::new(-12345678, 7).unwrap();
    assert_eq!(a.mantissa(), -12345678);
    assert_eq!(a.scale(), 7);
    let b = Amount::new(0, 28).unwrap();
    assert_eq!(b.mantissa(), 0);
    assert_eq!(b.scale(), 28);
}

#[test]
fn new_accepts_the_extremes() {
    assert!(Amount::new(MAX_COEFFICIENT, 0).is_some());
    assert!(Amount::new(-MAX_COEFFICIENT, 0).is_some());
    assert!(Amount::new(MAX_COEFFICIENT, MAX_SCALE).is_some());
    assert!(Amount::new(-MAX_COEFFICIENT, MAX_SCALE).is_some());
    assert!(Amount::new(1, MAX_SCALE).is_some());
}

#[test]
fn new_rejects_what_cannot_be_represented() {
    assert!(Amount::new(MAX_COEFFICIENT + 1, 0).is_none());
    assert!(Amount::new(-MAX_COEFFICIENT - 1, 0).is_none());
    assert!(Amount::new(i128::MAX, 0).is_none());
    assert!(Amount::new(i128::MIN, 0).is_none());
    assert!(Amount::new(1, MAX_SCALE + 1).is_none());
    assert!(Amount::new(0, u32::MAX).is_none());
}

#[test]
fn new_agrees_with_the_decimal_constructor() {
    for (m, s) in [(0i128, 0u32), (1, 28), (1, 29), (MAX_COEFFICIENT, 3), (MAX_COEFFICIENT + 1, 3), (-MAX_COEFFICIENT, 28), (-MAX_COEFFICIENT - 1, 28)] {
        assert_eq!(Amount::new(m, s).is_some(), Decimal::try_from_i128_with_scale(m, s).is_ok());
    }
}

#[test]
fn zero_and_default() {
    let z = Amount::zero();
    assert_eq!(z.mantissa(), 0);
    assert_eq!(z.scale(), 0);
    let d = Amount::default();
    assert_eq!(d.mantissa(), 0);
    assert_eq!(d.scale(), 0);
    assert_eq!(decimal(&d), Decimal::default());
    assert_eq!(z.compare(&d), Ordering::Equal);
}

#[test]
fn compare_orders_by_value() {
    let half = Amount::new(5, 1).unwrap();
    let hundredth = Amount::new(1, 2).unwrap();
    assert_eq!(half.compare(&hundredth), Ordering::Greater);
    assert_eq!(hundredth.compare(&half), Ordering::Less);
    let minus_half = Amount::new(-5, 1).unwrap();
    let minus_hundredth = Amount::new(-1, 2).unwrap();
    assert_eq!(minus_half.compare(&minus_hundredth), Ordering::Less);
    assert_eq!(minus_hundredth.compare(&minus_half), Ordering::Greater);
    assert_eq!(minus_half.compare(&half), Ordering::Less);
    assert_eq!(half.compare(&minus_half), Ordering::Greater);
}

#[test]
fn compare_ignores_trailing_zeros() {
    let one = Amount::new(1, 0).unwrap();
    let one_point_oh = Amount::new(10, 1).unwrap();
    let one_to_28_places = Amount::new(10_000_000_000_000_000_000_000_000_000, 28).unwrap();
    assert_eq!(one.compare(&one_point_oh), Ordering::Equal);
    assert_eq!(one_point_oh.compare(&one), Ordering::Equal);
    assert_eq!(one.compare(&one_to_28_places), Ordering::Equal);
    assert_eq!(one_to_28_places.compare(&one_point_oh), Ordering::Equal);
    assert_eq!(one, one_point_oh);
    assert_eq!(one, one_to_28_places);
}

#[test]
fn compare_with_zero() {
    let zero = Amount::zero();
    let zero_scaled = Amount::new(0, 12).unwrap();
    let tiny = Amount::new(1, 28).unwrap();
    let minus_tiny = Amount::new(-1, 28).unwrap();
    assert_eq!(zero.compare(&zero_scaled), Ordering::Equal);
    assert_eq!(zero_scaled.compare(&zero), Ordering::Equal);
    assert_eq!(tiny.compare(&zero), Ordering::Greater);
    assert_eq!(zero.compare(&tiny), Ordering::Less);
    assert_eq!(minus_tiny.compare(&zero_scaled), Ordering::Less);
    assert_eq!(zero_scaled.compare(&minus_tiny), Ordering::Greater);
    assert_eq!(minus_tiny.compare(&tiny), Ordering::Less);
}

#[test]
fn compare_at_the_extremes() {
    let largest = Amount::new(MAX_COEFFICIENT, 0).unwrap();
    let smallest = Amount::new(-MAX_COEFFICIENT, 0).unwrap();
    let largest_scaled = Amount::new(MAX_COEFFICIENT, 28).unwrap();
    let tiny = Amount::new(1, 28).unwrap();
    let eight = Amount::new(8, 0).unwrap();
    assert_eq!(largest.compare(&smallest), Ordering::Greater);
    assert_eq!(smallest.compare(&largest), Ordering::Less);
    assert_eq!(largest.compare(&largest_scaled), Ordering::Greater);
    assert_eq!(largest_scaled.compare(&largest), Ordering::Less);
    assert_eq!(largest.compare(&tiny), Ordering::Greater);
    assert_eq!(tiny.compare(&largest), Ordering::Less);
    // 7.9228... lies just under 8
    assert_eq!(largest_scaled.compare(&eight), Ordering::Less);
    assert_eq!(eight.compare(&largest_scaled), Ordering::Greater);
    assert_eq!(largest.compare(&largest), Ordering::Equal);
}

#[test]
fn compare_agrees_with_scaled_integers() {
    // 10^(6 - scale) * mantissa fits an i128 for these small cases
    let parts: [(i128, u32); 9] =
        [(0, 0), (1, 0), (-1, 0), (15, 1), (150, 2), (-15, 1), (1499, 3), (1501, 3), (2, 6)];
    for (am, asc) in parts {
        for (bm, bsc) in parts {
            let a = Amount::new(am, asc).unwrap();
            let b = Amount::new(bm, bsc).unwrap();
            let ua = am * 10i128.pow(6 - asc);
            let ub = bm * 10i128.pow(6 - bsc);
            assert_eq!(a.compare(&b), ua.cmp(&ub));
            assert_eq!(a == b, ua == ub);
        }
    }
}

#[test]
fn equality_is_by_value() {
    assert_eq!(Amount::new(25, 1).unwrap(), Amount::new(2500, 3).unwrap());
    assert_ne!(Amount::new(25, 1).unwrap(), Amount::new(25, 2).unwrap());
    assert_ne!(Amount::new(25, 1).unwrap(), Amount::new(-25, 1).unwrap());
    assert_eq!(Amount::new(0, 5).unwrap(), Amount::new(0, 0).unwrap());
}
