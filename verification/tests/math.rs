//! The transcendental family, checked against native floating point.

use bigfloat::BigFloat;
use bigfloat::Exponent;
use bigfloat::Mantissa;

const UNIT: i64 = 100_000_000_000_000;

fn lossy(bf: &BigFloat) -> f64 {
    match bf.mantissa() {
        Mantissa::NaN => f64::NAN,
        Mantissa::Inf(true) => f64::NEG_INFINITY,
        Mantissa::Inf(false) => f64::INFINITY,
        Mantissa::Units(u) => {
            let m = u as f64 / 1e14;
            match bf.exponent() {
                Exponent::Plain(e) => {
                    if e > 308 {
                        if m >= 0.0 {
                            f64::INFINITY
                        } else {
                            f64::NEG_INFINITY
                        }
                    } else if e < -350 {
                        0.0
                    } else {
                        m * 10f64.powi(e as i32)
                    }
                }
                Exponent::Nested(_) => {
                    if m >= 0.0 {
                        f64::INFINITY
                    } else {
                        f64::NEG_INFINITY
                    }
                }
            }
        }
    }
}

#[test]
fn test_ln_basic() {
    let bf = BigFloat::new(271_828_182_845_905, 0); // e
    let result = bf.ln();
    assert!((lossy(&result) - 1.0).abs() < 1e-10);
}

#[test]
fn test_log10_basic() {
    let bf = BigFloat::new(UNIT, 3); // 1000
    let result = bf.log10();
    assert!((lossy(&result) - 3.0).abs() < 1e-10);
}

#[test]
fn test_exp_basic() {
    let bf = BigFloat::new(UNIT, 0); // 1
    let result = bf.exp();
    assert!((lossy(&result) - 2.718281828459045).abs() < 1e-10);
}

#[test]
fn test_pow_basic() {
    let base = BigFloat::new(2 * UNIT, 0);
    let exp = BigFloat::new(3 * UNIT, 0);
    let result = base.pow(&exp);
    assert!((lossy(&result) - 8.0).abs() < 1e-10);
}

#[test]
fn test_powi_basic() {
    let base = BigFloat::new(2 * UNIT, 0);
    let result = base.powi(10);
    assert!((lossy(&result) - 1024.0).abs() < 1e-10);
}

#[test]
fn test_sqrt_basic() {
    let bf = BigFloat::new(9 * UNIT, 0);
    let result = bf.sqrt();
    assert!((lossy(&result) - 3.0).abs() < 1e-10);
}

#[test]
fn test_large_number_log() {
    let bf = BigFloat::new(UNIT, 100); // 1e100
    let result = bf.log10();
    assert!((lossy(&result) - 100.0).abs() < 1e-10);
}

#[test]
fn test_zero_cases() {
    let zero = BigFloat::zero();
    assert_eq!(lossy(&zero.ln()), f64::NEG_INFINITY);
    assert_eq!(lossy(&zero.log10()), f64::NEG_INFINITY);
    assert_eq!(lossy(&zero.exp()), 1.0);
}

#[test]
fn test_powi_negative() {
    let base = BigFloat::new(2 * UNIT, 0);
    let result = base.powi(-1); // exactly one half
    assert_eq!(result.mantissa(), Mantissa::Units(5 * UNIT));
    assert_eq!(result.exponent(), Exponent::Plain(-1));
}

#[test]
fn test_ln_negative_is_nan() {
    let bf = BigFloat::new(-UNIT, 0);
    assert!(bf.ln().is_nan());
    assert!(bf.log10().is_nan());
    assert!(bf.sqrt().is_nan());
}

#[test]
fn test_pow_zero_cases() {
    let zero = BigFloat::zero();
    let two = BigFloat::new(2 * UNIT, 0);
    assert!(zero.pow(&zero).is_nan()); // 0^0
    assert!(zero.pow(&two).is_zero());
    assert_eq!(two.pow(&zero).mantissa(), Mantissa::Units(UNIT)); // x^0 == 1
}

#[test]
fn test_log10_exact_mantissa() {
    // log10(2e5) = 5 + log10(2); log10(2) to 14 digits is 0.30102999566398
    let bf = BigFloat::new(2 * UNIT, 5);
    let result = bf.log10();
    assert!((lossy(&result) - 5.301029995663981).abs() < 1e-10);
}

#[test]
fn test_exp_heuristic_edges() {
    // a tiny operand (exponent below -15) gives exactly one
    let tiny = BigFloat::new(UNIT, -20);
    assert_eq!(tiny.exp().mantissa(), Mantissa::Units(UNIT));
    // a huge operand (exponent 3 and up) gives infinity
    let huge = BigFloat::new(UNIT, 3);
    assert_eq!(huge.exp().mantissa(), Mantissa::Inf(false));
}
