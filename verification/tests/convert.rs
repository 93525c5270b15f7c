//! Text rendering and parsing.

use bigfloat::BigFloat;
use bigfloat::Exponent;
use bigfloat::Mantissa;
use bigfloat::ParseError;

const UNIT: i64 = 100_000_000_000_000;

fn units_of(bf: &BigFloat) -> i64 {
    match bf.mantissa() {
        Mantissa::Units(u) => u,
        other => panic!("expected a finite mantissa, got {:?}", other),
    }
}

#[test]
fn test_display_basic() {
    let bf = BigFloat::new(123_000_000_000_000, 2); // 1.23e2
    assert_eq!(bf.to_text(), "123");
}

#[test]
fn test_display_scientific() {
    let bf = BigFloat::new(123_000_000_000_000, 10);
    assert_eq!(bf.to_text(), "1.23e10");
}

#[test]
fn test_parse_basic() {
    let bf = BigFloat::from_text("123.45").unwrap();
    assert_eq!(units_of(&bf), 123_450_000_000_000);
    assert_eq!(bf.exponent(), Exponent::Plain(2));
}

#[test]
fn test_parse_scientific() {
    let bf = BigFloat::from_text("1.23e10").unwrap();
    assert_eq!(units_of(&bf), 123_000_000_000_000);
    assert_eq!(bf.exponent(), Exponent::Plain(10));
}

#[test]
fn test_parse_special_values() {
    assert!(BigFloat::from_text("NaN").unwrap().is_nan());
    assert_eq!(BigFloat::from_text("inf").unwrap().mantissa(), Mantissa::Inf(false));
    assert_eq!(BigFloat::from_text("-inf").unwrap().mantissa(), Mantissa::Inf(true));
    assert_eq!(BigFloat::from_text("0").unwrap().mantissa(), Mantissa::Units(0));
}

#[test]
fn test_conversions() {
    let bf = BigFloat::new(12_345_000_000_000_000, 0); // 123.45
    assert_eq!(units_of(&bf), 123_450_000_000_000);

    let bf = BigFloat::from_int(42);
    assert_eq!(units_of(&bf), 420_000_000_000_000);
}

#[test]
fn test_small_fraction_display() {
    let bf = BigFloat::new(12_300_000_000_000, 0); // 0.123
    assert_eq!(bf.to_text(), "0.123");
}

#[test]
fn test_large_exponent_display() {
    let bf = BigFloat::new(123_000_000_000_000, 15);
    assert_eq!(bf.to_text(), "1.23e15");
}

#[test]
fn test_display_tokens() {
    assert_eq!(BigFloat::nan().to_text(), "NaN");
    assert_eq!(BigFloat::infinity().to_text(), "∞");
    assert_eq!(BigFloat::neg_infinity().to_text(), "-∞");
    assert_eq!(BigFloat::zero().to_text(), "0");
    assert_eq!(BigFloat::new(-UNIT, -4).to_text(), "-0.0001");
    assert_eq!(BigFloat::new(-UNIT, -5).to_text(), "-1e-5");
}

#[test]
fn test_parse_negative_exponent() {
    let bf = BigFloat::from_text("2.5e-7").unwrap();
    assert_eq!(units_of(&bf), 250_000_000_000_000);
    assert_eq!(bf.exponent(), Exponent::Plain(-7));
}

#[test]
fn test_parse_errors() {
    assert_eq!(BigFloat::from_text("   "), Err(ParseError::Empty));
    assert_eq!(
        BigFloat::from_text("abc"),
        Err(ParseError::Unrecognized(String::from("abc")))
    );
    assert_eq!(
        BigFloat::from_text("hello"),
        Err(ParseError::InvalidMantissa(String::from("h")))
    );
    assert_eq!(
        BigFloat::from_text("xe5"),
        Err(ParseError::InvalidMantissa(String::from("x")))
    );
    assert_eq!(
        BigFloat::from_text("1e!"),
        Err(ParseError::InvalidExponent(String::from("!")))
    );
    assert_eq!(
        BigFloat::from_text("1einf"),
        Err(ParseError::InvalidExponent(String::from("inf")))
    );
    assert_eq!(
        BigFloat::from_text("12 34"),
        Err(ParseError::Unrecognized(String::from("12 34")))
    );
}

#[test]
fn test_parse_trims_whitespace() {
    let bf = BigFloat::from_text("  42 ").unwrap();
    assert_eq!(units_of(&bf), 420_000_000_000_000);
    assert_eq!(bf.exponent(), Exponent::Plain(1));
}
