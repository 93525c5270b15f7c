//! The laws this library promises, stated and proved over the same spec
//! functions its operations are specified with: the normalization
//! invariant, the additive identity, commutativity of addition and
//! multiplication, the zero and division-by-zero rules, promotion of an
//! overflowing exponent, and the total order on finite values.

use vstd::prelude::*;

use crate::arithmetic::height;
use crate::arithmetic::height_e;
use crate::arithmetic::lemma_cmp_exp_flip;
use crate::arithmetic::lemma_cmp_flip;
use crate::arithmetic::mantissa_negative;
use crate::arithmetic::sentinel;
use crate::arithmetic::spec_add;
use crate::arithmetic::spec_cmp;
use crate::arithmetic::spec_cmp_exp;
use crate::arithmetic::spec_div;
use crate::arithmetic::spec_exp_add;
use crate::arithmetic::spec_mul;
use crate::arithmetic::units_of;
use crate::bigfloat::BigFloat;
use crate::bigfloat::Exponent;
use crate::bigfloat::Mantissa;
use crate::bigfloat::SCALE;
use crate::bigfloat::TEN_SCALE;
use crate::bigfloat::iabs;
use crate::bigfloat::is_strictly_positive;
use crate::bigfloat::spec_from_int;
use crate::bigfloat::spec_zero;
use crate::bigfloat::wf;
use core::cmp::Ordering;

verus! {

/// Normalization invariant: every well-formed non-zero finite value holds
/// a mantissa of magnitude in `[1, 10)` — its unit count lies in
/// `[SCALE, 10·SCALE)` — whatever kind its exponent is. Every constructor
/// and operation of this library ensures well-formedness, so this holds of
/// every constructed value.
pub proof fn law_normalization(v: BigFloat, u: i64)
    requires
        wf(v),
        v.mantissa == Mantissa::Units(u),
        u != 0,
    ensures
        SCALE <= iabs(u as int) < TEN_SCALE,
{
}

/// Additive identity: adding zero on either side returns the other
/// operand unchanged.
pub proof fn law_add_identity(x: BigFloat)
    requires
        wf(x),
    ensures
        spec_add(x, spec_zero()) == x,
        spec_add(spec_zero(), x) == x,
{
}

/// Multiplying by zero on either side gives zero.
pub proof fn law_mul_zero(x: BigFloat)
    ensures
        spec_mul(x, spec_zero()) == spec_zero(),
        spec_mul(spec_zero(), x) == spec_zero(),
{
}

/// Division by zero gives an infinity signed by the dividend.
pub proof fn law_div_by_zero(x: BigFloat)
    ensures
        spec_div(x, spec_zero()) == sentinel(Mantissa::Inf(mantissa_negative(x.mantissa))),
{
}

/// Zero divided by anything non-zero gives zero.
pub proof fn law_zero_div(x: BigFloat)
    requires
        !x.spec_is_zero(),
    ensures
        spec_div(spec_zero(), x) == spec_zero(),
{
}

/// Exponent overflow promotion: multiplying two values whose plain
/// exponents sum past the plain width yields a nested exponent, and the
/// nested value is the canonical value of the true sum (with the carry of
/// the mantissa renormalization).
pub proof fn law_promotion(a: BigFloat, b: BigFloat, pa: i64, pb: i64)
    requires
        wf(a),
        wf(b),
        !a.spec_is_zero(),
        !b.spec_is_zero(),
        a.spec_is_finite(),
        b.spec_is_finite(),
        a.exponent == Exponent::Plain(pa),
        b.exponent == Exponent::Plain(pb),
        pa as int + pb as int > i64::MAX,
    ensures
        spec_mul(a, b).exponent is Nested,
        ({
            let s: int = if iabs(
                crate::arithmetic::scaled_down(units_of(a) * units_of(b), 14),
            ) >= TEN_SCALE {
                1
            } else {
                0
            };
            spec_mul(a, b).exponent == Exponent::Nested(
                Box::new(spec_from_int(pa as int + pb as int + s)),
            )
        }),
{
}

/// Commutativity of addition: the result is exact (this library's
/// arithmetic is integer arithmetic), not merely within tolerance.
pub proof fn law_add_comm(a: BigFloat, b: BigFloat)
    requires
        wf(a),
        wf(b),
    ensures
        spec_add(a, b) == spec_add(b, a),
{
    lemma_cmp_exp_flip(a.exponent, b.exponent);
    if spec_cmp_exp(a.exponent, b.exponent) == Ordering::Equal && !a.spec_is_zero()
        && !b.spec_is_zero() && a.spec_is_finite() && b.spec_is_finite() {
        lemma_cmp_exp_eq(a.exponent, b.exponent);
    }
}

/// Commutativity of the exponent combination used by multiplication.
proof fn lemma_exp_add_comm(ea: Exponent, eb: Exponent, s: int)
    requires
        crate::arithmetic::exp_wf(ea),
        crate::arithmetic::exp_wf(eb),
        0 <= s <= 1,
    ensures
        spec_exp_add(ea, eb, s) == spec_exp_add(eb, ea, s),
{
    crate::bigfloat::pow10_vals();
    match (ea, eb) {
        (Exponent::Plain(x), Exponent::Nested(nb)) => {
            crate::bigfloat::lemma_from_int_wf_total(x as int + s);
            law_add_comm(spec_from_int(x as int + s), *nb);
        },
        (Exponent::Nested(na), Exponent::Plain(y)) => {
            crate::bigfloat::lemma_from_int_wf_total(y as int + s);
            law_add_comm(*na, spec_from_int(y as int + s));
        },
        (Exponent::Nested(na), Exponent::Nested(nb)) => {
            law_add_comm(*na, *nb);
        },
        _ => {},
    }
}

/// Commutativity of multiplication, exact for the same reason.
pub proof fn law_mul_comm(a: BigFloat, b: BigFloat)
    requires
        wf(a),
        wf(b),
    ensures
        spec_mul(a, b) == spec_mul(b, a),
{
    if !a.spec_is_zero() && !b.spec_is_zero() && a.spec_is_finite() && b.spec_is_finite() {
        assert(units_of(a) * units_of(b) == units_of(b) * units_of(a)) by (nonlinear_arith);
        lemma_exp_add_comm(a.exponent, b.exponent, 0);
        lemma_exp_add_comm(a.exponent, b.exponent, 1);
    }
}

/// Reflexivity: every value compares equal to itself.
pub proof fn lemma_cmp_refl(a: BigFloat)
    ensures
        spec_cmp(a, a) == Ordering::Equal,
    decreases 4 * (height(a) + height(a)),
{
    match a.mantissa {
        Mantissa::Units(u) => {
            if u != 0 {
                lemma_cmp_exp_refl(a.exponent);
            }
        },
        _ => {},
    }
}

/// Reflexivity of the exponent comparison.
proof fn lemma_cmp_exp_refl(e: Exponent)
    ensures
        spec_cmp_exp(e, e) == Ordering::Equal,
    decreases 4 * (height_e(e) + height_e(e)) + 1,
{
    match e {
        Exponent::Nested(b) => {
            lemma_cmp_refl(*b);
        },
        _ => {},
    }
}

/// For well-formed non-NaN values, comparing equal means being equal.
pub proof fn lemma_cmp_eq(a: BigFloat, b: BigFloat)
    requires
        wf(a),
        wf(b),
        !(a.mantissa is NaN),
        !(b.mantissa is NaN),
        spec_cmp(a, b) == Ordering::Equal,
    ensures
        a == b,
    decreases 4 * (height(a) + height(b)),
{
    match (a.mantissa, b.mantissa) {
        (Mantissa::Units(ua), Mantissa::Units(ub)) => {
            if ua != 0 || ub != 0 {
                lemma_cmp_exp_eq(a.exponent, b.exponent);
            }
        },
        _ => {},
    }
}

/// For well-formed exponents, comparing equal means being equal.
proof fn lemma_cmp_exp_eq(ea: Exponent, eb: Exponent)
    requires
        crate::arithmetic::exp_wf(ea),
        crate::arithmetic::exp_wf(eb),
        spec_cmp_exp(ea, eb) == Ordering::Equal,
    ensures
        ea == eb,
    decreases 4 * (height_e(ea) + height_e(eb)) + 1,
{
    match (ea, eb) {
        (Exponent::Nested(na), Exponent::Nested(nb)) => {
            lemma_cmp_eq(*na, *nb);
        },
        _ => {},
    }
}

/// A finite value strictly above a strictly positive finite value is
/// itself strictly positive; the mirrored fact holds for negatives.
proof fn lemma_cmp_sign(a: BigFloat, b: BigFloat)
    requires
        a.spec_is_finite(),
        b.spec_is_finite(),
        spec_cmp(a, b) == Ordering::Less,
    ensures
        is_strictly_positive(a) ==> is_strictly_positive(b),
        units_of(b) < 0 ==> units_of(a) < 0,
{
}

/// Transitivity of the comparison for well-formed non-NaN values.
pub proof fn lemma_cmp_trans(a: BigFloat, b: BigFloat, c: BigFloat)
    requires
        wf(a),
        wf(b),
        wf(c),
        !(a.mantissa is NaN),
        !(b.mantissa is NaN),
        !(c.mantissa is NaN),
        spec_cmp(a, b) == Ordering::Less,
        spec_cmp(b, c) == Ordering::Less,
    ensures
        spec_cmp(a, c) == Ordering::Less,
    decreases 4 * (height(a) + height(b) + height(c)),
{
    match (a.mantissa, b.mantissa, c.mantissa) {
        (Mantissa::Units(ua), Mantissa::Units(ub), Mantissa::Units(uc)) => {
            if ua != 0 && ub != 0 && uc != 0 && ((ua > 0 && ub > 0 && uc > 0) || (ua < 0 && ub < 0
                && uc < 0)) {
                let oab = spec_cmp_exp(a.exponent, b.exponent);
                let obc = spec_cmp_exp(b.exponent, c.exponent);
                if oab == Ordering::Equal {
                    lemma_cmp_exp_eq(a.exponent, b.exponent);
                } else if obc == Ordering::Equal {
                    lemma_cmp_exp_eq(b.exponent, c.exponent);
                } else if oab == Ordering::Less && obc == Ordering::Less {
                    lemma_cmp_exp_trans(a.exponent, b.exponent, c.exponent);
                } else if oab == Ordering::Greater && obc == Ordering::Greater {
                    lemma_cmp_exp_flip(a.exponent, b.exponent);
                    lemma_cmp_exp_flip(b.exponent, c.exponent);
                    lemma_cmp_exp_trans(c.exponent, b.exponent, a.exponent);
                    lemma_cmp_exp_flip(c.exponent, a.exponent);
                }
            }
        },
        _ => {},
    }
}

/// Transitivity of the exponent comparison, for well-formed exponents.
proof fn lemma_cmp_exp_trans(ea: Exponent, eb: Exponent, ec: Exponent)
    requires
        crate::arithmetic::exp_wf(ea),
        crate::arithmetic::exp_wf(eb),
        crate::arithmetic::exp_wf(ec),
        spec_cmp_exp(ea, eb) == Ordering::Less,
        spec_cmp_exp(eb, ec) == Ordering::Less,
    ensures
        spec_cmp_exp(ea, ec) == Ordering::Less,
    decreases 4 * (height_e(ea) + height_e(eb) + height_e(ec)) + 1,
{
    match (ea, eb, ec) {
        (Exponent::Nested(na), Exponent::Nested(nb), Exponent::Nested(nc)) => {
            lemma_cmp_trans(*na, *nb, *nc);
        },
        (Exponent::Plain(_), Exponent::Nested(nb), Exponent::Nested(nc)) => {
            // b's nested value is positive; transitivity at the value level
            // keeps c's nested value positive
            lemma_cmp_sign(*nb, *nc);
        },
        (Exponent::Nested(na), Exponent::Nested(nb), Exponent::Plain(_)) => {
            // b's nested value is not positive, so neither is a's
            lemma_cmp_sign(*na, *nb);
        },
        _ => {},
    }
}

/// Total order on finite non-NaN values: exactly one of "less", "equal"
/// and "greater" holds, and "equal" coincides with equality of the values.
/// Together with `lemma_cmp_trans` this is the total-order law.
pub proof fn law_order_trichotomy(a: BigFloat, b: BigFloat)
    requires
        wf(a),
        wf(b),
        a.spec_is_finite(),
        b.spec_is_finite(),
    ensures
        spec_cmp(a, b) == Ordering::Less || spec_cmp(a, b) == Ordering::Equal || spec_cmp(a, b)
            == Ordering::Greater,
        spec_cmp(a, b) == Ordering::Equal <==> a == b,
        spec_cmp(a, b) == Ordering::Less <==> spec_cmp(b, a) == Ordering::Greater,
{
    if spec_cmp(a, b) == Ordering::Equal {
        lemma_cmp_eq(a, b);
    }
    if a == b {
        lemma_cmp_refl(a);
    }
    lemma_cmp_flip(a, b);
}

} // verus!
