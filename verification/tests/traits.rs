//! Ordering, sign helpers and the in-place operators.

use bigfloat::BigFloat;
use bigfloat::Exponent;
use bigfloat::Mantissa;

const UNIT: i64 = 100_000_000_000_000;
const ONE_5: i64 = 150_000_000_000_000;

#[test]
fn test_partial_ord_basic() {
    let a = BigFloat::new(UNIT, 2); // 100
    let b = BigFloat::new(2 * UNIT, 1); // 20
    assert!(a > b);
    assert!(b < a);
}

#[test]
fn test_partial_ord_same_exponent() {
    let a = BigFloat::new(ONE_5, 2);
    let b = BigFloat::new(250_000_000_000_000, 2);
    assert!(a < b);
    assert!(b > a);
}

#[test]
fn test_partial_ord_negative() {
    let a = BigFloat::new(-UNIT, 2); // -100
    let b = BigFloat::new(UNIT, 1); // 10
    assert!(a < b);
    assert!(b > a);
}

#[test]
fn test_partial_ord_zero() {
    let zero = BigFloat::zero();
    let positive = BigFloat::new(UNIT, 0);
    let negative = BigFloat::new(-UNIT, 0);

    assert!(zero < positive);
    assert!(zero > negative);
    assert_eq!(zero, BigFloat::zero());
}

#[test]
fn test_abs() {
    let positive = BigFloat::new(ONE_5, 2);
    let negative = BigFloat::new(-ONE_5, 2);

    assert_eq!(positive.abs(), positive);
    assert_eq!(negative.abs(), positive);
}

#[test]
fn test_signum() {
    let positive = BigFloat::new(ONE_5, 2);
    let negative = BigFloat::new(-ONE_5, 2);
    let zero = BigFloat::zero();

    assert_eq!(positive.signum(), BigFloat::new(UNIT, 0));
    assert_eq!(negative.signum(), BigFloat::new(-UNIT, 0));
    assert_eq!(zero.signum(), BigFloat::zero());
}

#[test]
fn test_min_max() {
    let a = BigFloat::new(UNIT, 2);
    let b = BigFloat::new(2 * UNIT, 1);

    assert_eq!(a.clone().min(b.clone()), b);
    assert_eq!(a.clone().max(b.clone()), a);
}

#[test]
fn test_assignment_operators() {
    let mut a = BigFloat::new(UNIT, 1);
    let b = BigFloat::new(2 * UNIT, 1);

    a.add_assign(&b);
    assert_eq!(a, BigFloat::new(3 * UNIT, 1));

    a.sub_assign(&b);
    assert_eq!(a, BigFloat::new(UNIT, 1));

    a.mul_assign(&b);
    assert_eq!(a, BigFloat::new(2 * UNIT, 2));

    a.div_assign(&b);
    assert_eq!(a, BigFloat::new(UNIT, 1));
}

#[test]
fn test_neg() {
    let positive = BigFloat::new(ONE_5, 2);
    let negative = positive.neg();

    assert_eq!(negative.mantissa(), Mantissa::Units(-ONE_5));
    assert_eq!(negative.exponent(), positive.exponent());
}

#[test]
fn test_default() {
    let default_bf = BigFloat::default();
    assert_eq!(default_bf, BigFloat::zero());
}

#[test]
fn test_sign_predicates() {
    assert!(BigFloat::new(UNIT, 0).is_sign_positive());
    assert!(BigFloat::new(-UNIT, 0).is_sign_negative());
    assert!(BigFloat::zero().is_sign_positive());
    assert!(BigFloat::infinity().is_sign_positive());
    assert!(BigFloat::neg_infinity().is_sign_negative());
    assert!(BigFloat::nan().is_sign_positive());
}

#[test]
fn test_compare_exponents() {
    let a = BigFloat::new(UNIT, 5);
    let b = BigFloat::new(9 * UNIT, 3);
    assert_eq!(a.compare_exponents(&b), std::cmp::Ordering::Greater);
    assert_eq!(b.compare_exponents(&a), std::cmp::Ordering::Less);
    assert_eq!(a.compare_exponents(&a), std::cmp::Ordering::Equal);
}

#[test]
fn test_nan_is_incomparable() {
    let nan = BigFloat::nan();
    let one = BigFloat::new(UNIT, 0);
    assert_eq!(nan.partial_cmp(&one), None);
    assert_eq!(one.partial_cmp(&nan), None);
    assert!(!(nan < one) && !(nan > one) && !(nan == one));
}
