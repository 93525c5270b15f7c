//! Construction and normalization. Mantissas are unit counts of 10^-14:
//! 1.5 is 150_000_000_000_000 units, 0.15 is 15_000_000_000_000.

use bigfloat::BigFloat;
use bigfloat::Exponent;
use bigfloat::Mantissa;

const UNIT: i64 = 100_000_000_000_000;

fn units_of(bf: &BigFloat) -> i64 {
    match bf.mantissa() {
        Mantissa::Units(u) => u,
        other => panic!("expected a finite mantissa, got {:?}", other),
    }
}

#[test]
fn test_new_basic() {
    let bf = BigFloat::new(150_000_000_000_000, 3); // 1.5 at exponent 3
    assert_eq!(units_of(&bf), 150_000_000_000_000);
    assert_eq!(bf.exponent(), Exponent::Plain(3));
}

#[test]
fn test_new_normalization() {
    let bf = BigFloat::new(1_500_000_000_000_000, 2); // 15.0 at exponent 2
    assert_eq!(units_of(&bf), 150_000_000_000_000);
    assert_eq!(bf.exponent(), Exponent::Plain(3));
}

#[test]
fn test_new_small_normalization() {
    // 0.15 at exponent 2 is 15: normalization keeps the mantissa in [1, 10)
    // and lowers the exponent, exponents being signed in this library
    let bf = BigFloat::new(15_000_000_000_000, 2);
    assert_eq!(units_of(&bf), 150_000_000_000_000);
    assert_eq!(bf.exponent(), Exponent::Plain(1));
}

#[test]
fn test_from_f64_zero() {
    let bf = BigFloat::new(0, 0);
    assert_eq!(bf.mantissa(), Mantissa::Units(0));
    assert_eq!(bf.exponent(), Exponent::Plain(0));
}

#[test]
fn test_from_f64_positive() {
    let bf = BigFloat::new(12_345_000_000_000_000, 0); // 123.45
    assert_eq!(units_of(&bf), 123_450_000_000_000);
    assert_eq!(bf.exponent(), Exponent::Plain(2));
}

#[test]
fn test_from_f64_negative() {
    let bf = BigFloat::new(-12_345_000_000_000_000, 0); // -123.45
    assert_eq!(units_of(&bf), -123_450_000_000_000);
    assert_eq!(bf.exponent(), Exponent::Plain(2));
}

#[test]
fn test_from_f64_small() {
    // 0.00123 normalizes to 1.23 at exponent -3 (signed exponents)
    let bf = BigFloat::new(123_000_000_000, 0);
    assert_eq!(units_of(&bf), 123_000_000_000_000);
    assert_eq!(bf.exponent(), Exponent::Plain(-3));
}

#[test]
fn test_from_f64_infinity() {
    let bf = BigFloat::infinity();
    assert_eq!(bf.mantissa(), Mantissa::Inf(false));
    assert_eq!(bf.exponent(), Exponent::Plain(0));
}

#[test]
fn test_from_f64_neg_infinity() {
    let bf = BigFloat::neg_infinity();
    assert_eq!(bf.mantissa(), Mantissa::Inf(true));
    assert_eq!(bf.exponent(), Exponent::Plain(0));
}

#[test]
fn test_from_f64_nan() {
    let bf = BigFloat::nan();
    assert!(bf.is_nan());
    assert_eq!(bf.exponent(), Exponent::Plain(0));
}

#[test]
fn test_small_fraction() {
    // 0.123 normalizes to 1.23 at exponent -1
    let bf = BigFloat::new(12_300_000_000_000, 0);
    assert_eq!(units_of(&bf), 123_000_000_000_000);
    assert_eq!(bf.exponent(), Exponent::Plain(-1));
}

#[test]
fn test_large_number_normalization() {
    let bf = BigFloat::new(123_450_000_000_000_000, 0); // 1234.5
    assert_eq!(units_of(&bf), 123_450_000_000_000);
    assert_eq!(bf.exponent(), Exponent::Plain(3));
}

#[test]
fn test_from_int() {
    let bf = BigFloat::from_int(42);
    assert_eq!(units_of(&bf), 42 * UNIT / 10);
    assert_eq!(bf.exponent(), Exponent::Plain(1));
}

#[test]
fn test_predicates() {
    assert!(BigFloat::zero().is_zero());
    assert!(BigFloat::zero().is_finite());
    assert!(!BigFloat::infinity().is_finite());
    assert!(BigFloat::infinity().is_infinite());
    assert!(BigFloat::nan().is_nan());
    assert!(!BigFloat::new(UNIT, 5).is_zero());
}
