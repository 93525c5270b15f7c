//! Addition, subtraction, multiplication and division. Mantissas are unit
//! counts: one unit is 10^-14, so 1.5 is 150_000_000_000_000 units.

use bigfloat::BigFloat;
use bigfloat::Exponent;
use bigfloat::Mantissa;

const ONE_5: i64 = 150_000_000_000_000;
const TWO_5: i64 = 250_000_000_000_000;
const UNIT: i64 = 100_000_000_000_000;

fn units_of(bf: &BigFloat) -> i64 {
    match bf.mantissa() {
        Mantissa::Units(u) => u,
        other => panic!("expected a finite mantissa, got {:?}", other),
    }
}

#[test]
fn test_add_basic() {
    let a = BigFloat::new(ONE_5, 2); // 150
    let b = BigFloat::new(TWO_5, 2); // 250
    let result = a.add(&b); // 400
    assert_eq!(units_of(&result), 4 * UNIT);
    assert_eq!(result.exponent(), Exponent::Plain(2));
}

#[test]
fn test_add_different_exponents() {
    let a = BigFloat::new(UNIT, 2); // 100
    let b = BigFloat::new(UNIT, 0); // 1
    let result = a.add(&b); // 101
    assert_eq!(units_of(&result), 101_000_000_000_000);
    assert_eq!(result.exponent(), Exponent::Plain(2));
}

#[test]
fn test_add_zero() {
    let a = BigFloat::new(ONE_5, 2);
    let b = BigFloat::zero();
    let result = a.add(&b);
    assert_eq!(units_of(&result), ONE_5);
    assert_eq!(result.exponent(), Exponent::Plain(2));
}

#[test]
fn test_sub_basic() {
    let a = BigFloat::new(3 * UNIT, 2); // 300
    let b = BigFloat::new(UNIT, 2); // 100
    let result = a.sub(&b); // 200
    assert_eq!(units_of(&result), 2 * UNIT);
    assert_eq!(result.exponent(), Exponent::Plain(2));
}

#[test]
fn test_mul_basic() {
    let a = BigFloat::new(2 * UNIT, 2); // 200
    let b = BigFloat::new(3 * UNIT, 1); // 30
    let result = a.mul(&b); // 6000
    assert_eq!(units_of(&result), 6 * UNIT);
    assert_eq!(result.exponent(), Exponent::Plain(3));
}

#[test]
fn test_mul_zero() {
    let a = BigFloat::new(2 * UNIT, 2);
    let b = BigFloat::zero();
    let result = a.mul(&b);
    assert_eq!(result.mantissa(), Mantissa::Units(0));
}

#[test]
fn test_div_basic() {
    let a = BigFloat::new(6 * UNIT, 3); // 6000
    let b = BigFloat::new(2 * UNIT, 1); // 20
    let result = a.div(&b); // 300
    assert_eq!(units_of(&result), 3 * UNIT);
    assert_eq!(result.exponent(), Exponent::Plain(2));
}

#[test]
fn test_div_by_zero() {
    let a = BigFloat::new(UNIT, 0);
    let b = BigFloat::zero();
    let result = a.div(&b);
    assert_eq!(result.mantissa(), Mantissa::Inf(false));
}

#[test]
fn test_very_large_numbers() {
    let a = BigFloat::new(UNIT, 100); // 1e100
    let b = BigFloat::new(UNIT, 200); // 1e200
    let result = a.mul(&b); // 1e300
    assert_eq!(units_of(&result), UNIT);
    assert_eq!(result.exponent(), Exponent::Plain(300));
}
