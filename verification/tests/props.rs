//! Concrete checks of the library's stated laws: identities,
//! commutativity, the zero and division rules, exponent promotion, the
//! round trip through text, nested-exponential parsing, and ordering.

use bigfloat::BigFloat;
use bigfloat::Exponent;
use bigfloat::Mantissa;

const UNIT: i64 = 100_000_000_000_000;

fn units_of(bf: &BigFloat) -> i64 {
    match bf.mantissa() {
        Mantissa::Units(u) => u,
        other => panic!("expected a finite mantissa, got {:?}", other),
    }
}

#[test]
fn scenario_same_exponent_sum() {
    // 1.5e100 + 2.5e100 has mantissa 4.0 and exponent 100
    let a = BigFloat::new(150_000_000_000_000, 100);
    let b = BigFloat::new(250_000_000_000_000, 100);
    let r = a.add(&b);
    assert_eq!(units_of(&r), 4 * UNIT);
    assert_eq!(r.exponent(), Exponent::Plain(100));
}

#[test]
fn scenario_small_term_contributes() {
    // 1.0e100 + 1.0e90: the gap of 10 is within the 15-digit window, so
    // the smaller term still lands in the mantissa
    let a = BigFloat::new(UNIT, 100);
    let b = BigFloat::new(UNIT, 90);
    let r = a.add(&b);
    assert_eq!(units_of(&r), 100_000_000_010_000);
    assert_eq!(r.exponent(), Exponent::Plain(100));
}

#[test]
fn scenario_large_gap_drops_term() {
    let a = BigFloat::new(UNIT, 100);
    let b = BigFloat::new(UNIT, 80);
    let r = a.add(&b);
    assert_eq!(units_of(&r), UNIT);
    assert_eq!(r.exponent(), Exponent::Plain(100));
}

#[test]
fn additive_identity() {
    let x = BigFloat::new(-723_000_000_000_000, 55);
    assert_eq!(x.add(&BigFloat::zero()), x);
    assert_eq!(BigFloat::zero().add(&x), x);
}

#[test]
fn add_commutes() {
    let a = BigFloat::new(123_456_789_012_345, 7);
    let b = BigFloat::new(-987_654_321_098_765, 3);
    assert_eq!(a.add(&b), b.add(&a));
}

#[test]
fn mul_commutes() {
    let a = BigFloat::new(123_456_789_012_345, 7);
    let b = BigFloat::new(-987_654_321_098_765, 3);
    assert_eq!(a.mul(&b), b.mul(&a));
}

#[test]
fn sign_zero_laws() {
    let x = BigFloat::new(321_000_000_000_000, 9);
    assert!(x.mul(&BigFloat::zero()).is_zero());
    assert!(BigFloat::zero().mul(&x).is_zero());
    assert_eq!(x.div(&BigFloat::zero()).mantissa(), Mantissa::Inf(false));
    assert_eq!(x.neg().div(&BigFloat::zero()).mantissa(), Mantissa::Inf(true));
    assert!(BigFloat::zero().div(&x).is_zero());
}

#[test]
fn exponent_overflow_promotes() {
    // the exponents sum one past the plain width, so the product's
    // exponent is a nested value approximating that sum
    let a = BigFloat::new(UNIT, i64::MAX);
    let b = BigFloat::new(UNIT, 1);
    let r = a.mul(&b);
    match r.exponent() {
        Exponent::Nested(nested) => {
            // 9223372036854775808 rounded away from zero to 15 digits
            assert_eq!(nested.mantissa(), Mantissa::Units(922_337_203_685_478));
            assert_eq!(nested.exponent(), Exponent::Plain(18));
            // converted back through log10, the nested value approximates
            // the true combined exponent
            let lg = nested.log10();
            match lg.mantissa() {
                Mantissa::Units(u) => {
                    let approx = u as f64 / 1e14;
                    assert_eq!(lg.exponent(), Exponent::Plain(1));
                    assert!((approx * 10.0 - 18.964889726830815).abs() < 1e-9);
                }
                other => panic!("unexpected mantissa {:?}", other),
            }
        }
        other => panic!("expected a nested exponent, got {:?}", other),
    }
}

#[test]
fn round_trip_representative_values() {
    let values = [
        BigFloat::new(150_000_000_000_000, 2), // 1.5 × 10^2
        BigFloat::new(UNIT, 1000),             // 1 × 10^1000
        BigFloat::new(-275_000_000_000_000, -40),
        BigFloat::new(999_999_999_999_999, 6),
        BigFloat::zero(),
        BigFloat::nan(),
        BigFloat::infinity(),
        BigFloat::neg_infinity(),
    ];
    for v in values.iter() {
        let text = v.to_text();
        let back = BigFloat::from_text(&text).unwrap();
        if v.is_nan() {
            assert!(back.is_nan());
        } else {
            assert_eq!(&back, v);
        }
    }
}

#[test]
fn round_trip_nested_exponent() {
    // 1 × 10^(1 × 10^100), built by parsing, survives the round trip
    let v = BigFloat::from_text("1e1e100").unwrap();
    let text = v.to_text();
    assert_eq!(text, "1 × 10^(1e100)");
    let back = BigFloat::from_text(&text).unwrap();
    assert_eq!(back, v);
}

#[test]
fn test_parse_nested_exponential() {
    // parsing 1e1e100 gives mantissa 1.0 and a nested exponent holding
    // mantissa 1.0 at inner exponent 100
    let v = BigFloat::from_text("1e1e100").unwrap();
    assert_eq!(v.mantissa(), Mantissa::Units(UNIT));
    match v.exponent() {
        Exponent::Nested(nested) => {
            assert_eq!(nested.mantissa(), Mantissa::Units(UNIT));
            assert_eq!(nested.exponent(), Exponent::Plain(100));
        }
        other => panic!("expected a nested exponent, got {:?}", other),
    }
}

#[test]
fn test_parse_scientific_large() {
    // parsing 1.23e456 gives mantissa 1.23 and exponent 456
    let v = BigFloat::from_text("1.23e456").unwrap();
    assert_eq!(v.mantissa(), Mantissa::Units(123_000_000_000_000));
    assert_eq!(v.exponent(), Exponent::Plain(456));
}

#[test]
fn parse_demotes_small_recursive_exponent() {
    // a recursive exponent whose value fits the plain width is demoted
    let v = BigFloat::from_text("1e5e2").unwrap();
    assert_eq!(v.mantissa(), Mantissa::Units(UNIT));
    assert_eq!(v.exponent(), Exponent::Plain(500));
}

#[test]
fn ordering_is_total_on_finite_values() {
    let values = [
        BigFloat::new(-UNIT, 50),
        BigFloat::new(-UNIT, 2),
        BigFloat::zero(),
        BigFloat::new(UNIT, 2),
        BigFloat::new(150_000_000_000_000, 2),
        BigFloat::new(UNIT, 50),
        BigFloat::from_text("1e1e100").unwrap(),
    ];
    for i in 0..values.len() {
        for j in 0..values.len() {
            let a = &values[i];
            let b = &values[j];
            let less = a < b;
            let equal = a == b;
            let greater = a > b;
            // exactly one of the three relations holds
            assert_eq!(
                (less as u32) + (equal as u32) + (greater as u32),
                1,
                "trichotomy failed for {} and {}",
                i,
                j
            );
            assert_eq!(less, j > i);
            assert_eq!(equal, i == j);
            // transitivity across the ordered list
            for k in 0..values.len() {
                if values[i] < values[j] && values[j] < values[k] {
                    assert!(values[i] < values[k]);
                }
            }
        }
    }
}

#[test]
fn mantissa_always_normalized() {
    // the normalization invariant across a spread of operations
    let samples = [
        BigFloat::new(999_999_999_999_999, 10).add(&BigFloat::new(999_999_999_999_999, 10)),
        BigFloat::new(999_999_999_999_999, 10).mul(&BigFloat::new(999_999_999_999_999, 10)),
        BigFloat::new(UNIT, 3).div(&BigFloat::new(3 * UNIT, 0)),
        BigFloat::new(UNIT, 2).sub(&BigFloat::new(UNIT, 2).add(&BigFloat::new(UNIT, -10))),
        BigFloat::from_text("0.00000123").unwrap(),
        BigFloat::new(123, 0),
    ];
    for v in samples.iter() {
        if let Mantissa::Units(u) = v.mantissa() {
            if u != 0 {
                assert!((100_000_000_000_000..1_000_000_000_000_000).contains(&u.abs()));
            }
        }
    }
}
