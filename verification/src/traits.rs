//! Ordering and sign: the partial order (NaN is incomparable), the derived
//! helpers `abs`, `signum`, `min` and `max`, and the sign predicates.

use vstd::prelude::*;

use crate::arithmetic::spec_cmp;
use crate::arithmetic::spec_neg;
use crate::bigfloat::BigFloat;
use crate::bigfloat::Exponent;
use crate::bigfloat::Mantissa;
use crate::bigfloat::SCALE;
use crate::bigfloat::clone_big;
use crate::bigfloat::finite_plain;
use crate::bigfloat::spec_zero;
use crate::bigfloat::wf;
use core::cmp::Ordering;

verus! {

/// The partial comparison: NaN is incomparable, everything else follows
/// the total comparison `spec_cmp`.
pub open spec fn spec_partial_cmp(a: BigFloat, b: BigFloat) -> Option<Ordering> {
    if a.mantissa is NaN || b.mantissa is NaN {
        None
    } else {
        Some(spec_cmp(a, b))
    }
}

/// `a <= b` in the partial order (false when either side is NaN).
pub open spec fn spec_le(a: BigFloat, b: BigFloat) -> bool {
    spec_partial_cmp(a, b) matches Some(Ordering::Less | Ordering::Equal)
}

/// `a >= b` in the partial order (false when either side is NaN).
pub open spec fn spec_ge(a: BigFloat, b: BigFloat) -> bool {
    spec_partial_cmp(a, b) matches Some(Ordering::Greater | Ordering::Equal)
}

/// Absolute value: flips the sign when the mantissa is negative (a NaN
/// keeps its sign bit, as the native float convention has it).
pub open spec fn spec_abs(a: BigFloat) -> BigFloat {
    if crate::arithmetic::mantissa_negative(a.mantissa) {
        spec_neg(a)
    } else {
        a
    }
}

/// The sign as a value: one for positive, minus one for negative, zero for
/// zero and for NaN (NaN compares neither above nor below zero).
pub open spec fn spec_signum(a: BigFloat) -> BigFloat {
    match a.mantissa {
        Mantissa::NaN => spec_zero(),
        Mantissa::Inf(s) => {
            if s {
                finite_plain(-(SCALE as int), 0)
            } else {
                finite_plain(SCALE as int, 0)
            }
        },
        Mantissa::Units(u) => {
            if u > 0 {
                finite_plain(SCALE as int, 0)
            } else if u < 0 {
                finite_plain(-(SCALE as int), 0)
            } else {
                spec_zero()
            }
        },
    }
}

impl PartialOrd for BigFloat {
    /// The partial order: NaN is incomparable; otherwise the total
    /// comparison decides.
    fn partial_cmp(&self, other: &Self) -> (r: Option<Ordering>) {
        if self.is_nan() || other.is_nan() {
            None
        } else {
            Some(self.cmp(other))
        }
    }
}

impl vstd::std_specs::cmp::PartialOrdSpecImpl for BigFloat {
    open spec fn obeys_partial_cmp_spec() -> bool {
        true
    }

    open spec fn partial_cmp_spec(&self, other: &Self) -> Option<Ordering> {
        spec_partial_cmp(*self, *other)
    }
}

impl BigFloat {
    /// Absolute value.
    pub fn abs(&self) -> (r: BigFloat)
        requires
            wf(*self),
        ensures
            r == spec_abs(*self),
            wf(r),
    {
        match self.mantissa {
            Mantissa::Units(u) => {
                if u < 0 {
                    self.neg()
                } else {
                    clone_big(self)
                }
            },
            Mantissa::Inf(s) => {
                if s {
                    self.neg()
                } else {
                    clone_big(self)
                }
            },
            Mantissa::NaN => clone_big(self),
        }
    }

    /// The sign as a value: one, minus one, or zero (zero also for NaN).
    pub fn signum(&self) -> (r: BigFloat)
        requires
            wf(*self),
        ensures
            r == spec_signum(*self),
            wf(r),
    {
        match self.mantissa {
            Mantissa::NaN => BigFloat::zero(),
            Mantissa::Inf(s) => {
                if s {
                    BigFloat { mantissa: Mantissa::Units(-SCALE), exponent: Exponent::Plain(0) }
                } else {
                    BigFloat::one()
                }
            },
            Mantissa::Units(u) => {
                if u > 0 {
                    BigFloat::one()
                } else if u < 0 {
                    BigFloat { mantissa: Mantissa::Units(-SCALE), exponent: Exponent::Plain(0) }
                } else {
                    BigFloat::zero()
                }
            },
        }
    }

    /// Whether the sign is positive (true for NaN and for zero, as with
    /// native floats).
    pub fn is_sign_positive(&self) -> (r: bool)
        ensures
            r == !crate::arithmetic::mantissa_negative(self.mantissa),
    {
        match self.mantissa {
            Mantissa::NaN => true,
            Mantissa::Inf(s) => !s,
            Mantissa::Units(u) => u >= 0,
        }
    }

    /// Whether the sign is negative.
    pub fn is_sign_negative(&self) -> (r: bool)
        ensures
            r == crate::arithmetic::mantissa_negative(self.mantissa),
    {
        match self.mantissa {
            Mantissa::NaN => false,
            Mantissa::Inf(s) => s,
            Mantissa::Units(u) => u < 0,
        }
    }

    /// The smaller of the two values; with a NaN on either side the second
    /// operand is returned, as the underlying `<=` is then false.
    pub fn min(self, other: BigFloat) -> (r: BigFloat)
        ensures
            r == (if spec_le(self, other) {
                self
            } else {
                other
            }),
    {
        if self.le(&other) {
            self
        } else {
            other
        }
    }

    /// The larger of the two values; with a NaN on either side the second
    /// operand is returned, as the underlying `>=` is then false.
    pub fn max(self, other: BigFloat) -> (r: BigFloat)
        ensures
            r == (if spec_ge(self, other) {
                self
            } else {
                other
            }),
    {
        if self.ge(&other) {
            self
        } else {
            other
        }
    }
}

} // verus!
