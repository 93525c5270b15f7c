//! Arithmetic: addition, subtraction, multiplication and division, together
//! with the exponent machinery they share — comparing exponents, adding and
//! subtracting them with promotion to a nested exponent on overflow, and
//! demoting a computed exponent back to a plain integer when it fits.

use vstd::prelude::*;

use crate::bigfloat::BigFloat;
use crate::bigfloat::Exponent;
use crate::bigfloat::Mantissa;
use crate::bigfloat::SCALE;
use crate::bigfloat::TEN_SCALE;
use crate::bigfloat::clone_big;
use crate::bigfloat::clone_exponent;
use crate::bigfloat::from_i128;
use crate::bigfloat::iabs;
use crate::bigfloat::in_i64;
use crate::bigfloat::is_strictly_positive;
use crate::bigfloat::lemma_from_int_wf;
use crate::bigfloat::nested_ok;
use crate::bigfloat::norm_pos;
use crate::bigfloat::pow10;
use crate::bigfloat::pow10_vals;
use crate::bigfloat::spec_from_int;
use crate::bigfloat::spec_zero;
use crate::bigfloat::wf;
use core::cmp::Ordering;

verus! {

/// Nesting height of a value: how many levels of nested exponents it holds.
pub open spec fn height(v: BigFloat) -> nat
    decreases v,
{
    1 + height_e(v.exponent)
}

/// Nesting height of an exponent.
pub open spec fn height_e(e: Exponent) -> nat
    decreases e,
{
    match e {
        Exponent::Plain(_) => 0,
        Exponent::Nested(b) => 1 + height(*b),
    }
}

/// Total comparison of two values, NaN collapsed to `Equal` (the partial
/// comparison wraps this and maps NaN to "incomparable"). The order:
/// negative infinity, finite values by sign then exponent then mantissa,
/// positive infinity. For two same-signed finite values the larger exponent
/// wins (reversed for negatives); with equal exponents the mantissas decide,
/// compared reversed between negatives.
pub open spec fn spec_cmp(a: BigFloat, b: BigFloat) -> Ordering
    decreases 4 * (height(a) + height(b)),
{
    match (a.mantissa, b.mantissa) {
        (Mantissa::NaN, _) => Ordering::Equal,
        (_, Mantissa::NaN) => Ordering::Equal,
        (Mantissa::Inf(sa), Mantissa::Inf(sb)) => {
            if sa == sb {
                Ordering::Equal
            } else if sa {
                Ordering::Less
            } else {
                Ordering::Greater
            }
        },
        (Mantissa::Inf(sa), Mantissa::Units(_)) => {
            if sa {
                Ordering::Less
            } else {
                Ordering::Greater
            }
        },
        (Mantissa::Units(_), Mantissa::Inf(sb)) => {
            if sb {
                Ordering::Greater
            } else {
                Ordering::Less
            }
        },
        (Mantissa::Units(ua), Mantissa::Units(ub)) => {
            if ua == 0 && ub == 0 {
                Ordering::Equal
            } else if ua == 0 {
                if ub > 0 {
                    Ordering::Less
                } else {
                    Ordering::Greater
                }
            } else if ub == 0 {
                if ua > 0 {
                    Ordering::Greater
                } else {
                    Ordering::Less
                }
            } else if ua > 0 && ub < 0 {
                Ordering::Greater
            } else if ua < 0 && ub > 0 {
                Ordering::Less
            } else {
                let positive = ua > 0;
                match spec_cmp_exp(a.exponent, b.exponent) {
                    Ordering::Equal => {
                        if positive {
                            cmp_int(ua as int, ub as int)
                        } else {
                            cmp_int(ub as int, ua as int)
                        }
                    },
                    Ordering::Greater => {
                        if positive {
                            Ordering::Greater
                        } else {
                            Ordering::Less
                        }
                    },
                    Ordering::Less => {
                        if positive {
                            Ordering::Less
                        } else {
                            Ordering::Greater
                        }
                    },
                }
            }
        },
    }
}

/// Comparison of two exponents as magnitudes. A nested exponent arises only
/// past the plain width, so against a plain exponent its sign alone decides;
/// two nested exponents compare recursively as values.
pub open spec fn spec_cmp_exp(a: Exponent, b: Exponent) -> Ordering
    decreases 4 * (height_e(a) + height_e(b)) + 1,
{
    match (a, b) {
        (Exponent::Plain(pa), Exponent::Plain(pb)) => cmp_int(pa as int, pb as int),
        (Exponent::Plain(_), Exponent::Nested(nb)) => {
            if is_strictly_positive(*nb) {
                Ordering::Less
            } else {
                Ordering::Greater
            }
        },
        (Exponent::Nested(na), Exponent::Plain(_)) => {
            if is_strictly_positive(*na) {
                Ordering::Greater
            } else {
                Ordering::Less
            }
        },
        (Exponent::Nested(na), Exponent::Nested(nb)) => spec_cmp(*na, *nb),
    }
}

/// Integer comparison.
pub open spec fn cmp_int(a: int, b: int) -> Ordering {
    if a < b {
        Ordering::Less
    } else if a == b {
        Ordering::Equal
    } else {
        Ordering::Greater
    }
}

impl BigFloat {
    /// Total comparison, NaN collapsed to `Equal`. Callers needing strict
    /// IEEE-style NaN semantics use `partial_cmp`, which wraps this.
    pub fn cmp(&self, other: &BigFloat) -> (r: Ordering)
        ensures
            r == spec_cmp(*self, *other),
        decreases 4 * (height(*self) + height(*other)),
    {
        match (&self.mantissa, &other.mantissa) {
            (Mantissa::NaN, _) => Ordering::Equal,
            (_, Mantissa::NaN) => Ordering::Equal,
            (Mantissa::Inf(sa), Mantissa::Inf(sb)) => {
                if sa == sb {
                    Ordering::Equal
                } else if *sa {
                    Ordering::Less
                } else {
                    Ordering::Greater
                }
            },
            (Mantissa::Inf(sa), Mantissa::Units(_)) => {
                if *sa {
                    Ordering::Less
                } else {
                    Ordering::Greater
                }
            },
            (Mantissa::Units(_), Mantissa::Inf(sb)) => {
                if *sb {
                    Ordering::Greater
                } else {
                    Ordering::Less
                }
            },
            (Mantissa::Units(ua), Mantissa::Units(ub)) => {
                let ua: i64 = *ua;
                let ub: i64 = *ub;
                if ua == 0 && ub == 0 {
                    Ordering::Equal
                } else if ua == 0 {
                    if ub > 0 {
                        Ordering::Less
                    } else {
                        Ordering::Greater
                    }
                } else if ub == 0 {
                    if ua > 0 {
                        Ordering::Greater
                    } else {
                        Ordering::Less
                    }
                } else if ua > 0 && ub < 0 {
                    Ordering::Greater
                } else if ua < 0 && ub > 0 {
                    Ordering::Less
                } else {
                    let positive: bool = ua > 0;
                    match self.compare_exponents(other) {
                        Ordering::Equal => {
                            if positive {
                                cmp_i64(ua, ub)
                            } else {
                                cmp_i64(ub, ua)
                            }
                        },
                        Ordering::Greater => {
                            if positive {
                                Ordering::Greater
                            } else {
                                Ordering::Less
                            }
                        },
                        Ordering::Less => {
                            if positive {
                                Ordering::Less
                            } else {
                                Ordering::Greater
                            }
                        },
                    }
                }
            },
        }
    }

    /// Compare the exponents of two values (plain against plain by integer
    /// order; a nested exponent outranks any plain one if positive, ranks
    /// below all if negative; nested against nested recursively as values).
    pub fn compare_exponents(&self, other: &BigFloat) -> (r: Ordering)
        ensures
            r == spec_cmp_exp(self.exponent, other.exponent),
        decreases 4 * (height_e(self.exponent) + height_e(other.exponent)) + 1,
    {
        match (&self.exponent, &other.exponent) {
            (Exponent::Plain(pa), Exponent::Plain(pb)) => cmp_i64(*pa, *pb),
            (Exponent::Plain(_), Exponent::Nested(nb)) => {
                if nb.is_strictly_positive() {
                    Ordering::Less
                } else {
                    Ordering::Greater
                }
            },
            (Exponent::Nested(na), Exponent::Plain(_)) => {
                if na.is_strictly_positive() {
                    Ordering::Greater
                } else {
                    Ordering::Less
                }
            },
            (Exponent::Nested(na), Exponent::Nested(nb)) => na.cmp(nb),
        }
    }

    /// Whether the value is finite with a positive non-zero mantissa.
    pub(crate) fn is_strictly_positive(&self) -> (r: bool)
        ensures
            r == is_strictly_positive(*self),
    {
        match self.mantissa {
            Mantissa::Units(u) => u > 0,
            _ => false,
        }
    }
}

/// The reverse of an ordering.
pub open spec fn flip(o: Ordering) -> Ordering {
    match o {
        Ordering::Less => Ordering::Greater,
        Ordering::Equal => Ordering::Equal,
        Ordering::Greater => Ordering::Less,
    }
}

/// Comparison is antisymmetric: swapping the operands reverses the result.
pub proof fn lemma_cmp_flip(a: BigFloat, b: BigFloat)
    ensures
        spec_cmp(b, a) == flip(spec_cmp(a, b)),
    decreases 4 * (height(a) + height(b)),
{
    if a.mantissa is Units && b.mantissa is Units {
        lemma_cmp_exp_flip(a.exponent, b.exponent);
    }
}

/// Exponent comparison is antisymmetric.
pub proof fn lemma_cmp_exp_flip(ea: Exponent, eb: Exponent)
    ensures
        spec_cmp_exp(eb, ea) == flip(spec_cmp_exp(ea, eb)),
    decreases 4 * (height_e(ea) + height_e(eb)) + 1,
{
    match (ea, eb) {
        (Exponent::Nested(na), Exponent::Nested(nb)) => {
            lemma_cmp_flip(*na, *nb);
        },
        _ => {},
    }
}

/// Integer comparison, executably.
fn cmp_i64(a: i64, b: i64) -> (r: Ordering)
    ensures
        r == cmp_int(a as int, b as int),
{
    if a < b {
        Ordering::Less
    } else if a == b {
        Ordering::Equal
    } else {
        Ordering::Greater
    }
}

/// A non-finite result: the exponent of a NaN or infinity carries no
/// information and is pinned to `Plain(0)`.
pub open spec fn sentinel(m: Mantissa) -> BigFloat {
    BigFloat { mantissa: m, exponent: Exponent::Plain(0) }
}

/// The mantissa unit count of a finite value (zero for the sentinels).
pub open spec fn units_of(v: BigFloat) -> int {
    match v.mantissa {
        Mantissa::Units(u) => u as int,
        _ => 0,
    }
}

/// Whether a well-formed exponent: plain, or a nested value that is itself
/// well-formed, finite, non-zero and beyond the plain width.
pub open spec fn exp_wf(e: Exponent) -> bool {
    match e {
        Exponent::Plain(_) => true,
        Exponent::Nested(b) => wf(*b) && nested_ok(*b),
    }
}

/// Mantissa addition once at least one side is non-finite: NaN propagates,
/// opposite infinities cancel to NaN, an infinity absorbs anything finite.
/// (Both sides finite never reaches this table.)
pub open spec fn nf_add(a: Mantissa, b: Mantissa) -> Mantissa {
    match (a, b) {
        (Mantissa::NaN, _) => Mantissa::NaN,
        (_, Mantissa::NaN) => Mantissa::NaN,
        (Mantissa::Inf(sa), Mantissa::Inf(sb)) => {
            if sa == sb {
                Mantissa::Inf(sa)
            } else {
                Mantissa::NaN
            }
        },
        (Mantissa::Inf(sa), Mantissa::Units(_)) => Mantissa::Inf(sa),
        (Mantissa::Units(_), Mantissa::Inf(sb)) => Mantissa::Inf(sb),
        (Mantissa::Units(x), Mantissa::Units(_)) => Mantissa::Units(x),
    }
}

/// Negation: the sign lives entirely in the mantissa.
pub open spec fn spec_neg(a: BigFloat) -> BigFloat {
    match a.mantissa {
        Mantissa::NaN => a,
        Mantissa::Inf(s) => BigFloat { mantissa: Mantissa::Inf(!s), exponent: a.exponent },
        Mantissa::Units(u) => BigFloat {
            mantissa: Mantissa::Units((-(u as int)) as i64),
            exponent: a.exponent,
        },
    }
}

/// `u / 10^d`, truncating toward zero.
pub open spec fn scaled_down(u: int, d: nat) -> int {
    if u >= 0 {
        u / pow10(d)
    } else {
        -((-u) / pow10(d))
    }
}

/// Turn a computed exponent value back into an `Exponent`: a value whose
/// integer part fits the plain width becomes `Plain` (truncating toward
/// zero; only integer-valued exponents arise), anything beyond it stays
/// `Nested`. A nested-exponent value with a negative inner exponent would
/// be smaller than one and truncates to `Plain(0)`.
pub open spec fn spec_demote(v: BigFloat) -> Exponent {
    match v.mantissa {
        Mantissa::Units(u) => {
            if u == 0 {
                Exponent::Plain(0)
            } else {
                match v.exponent {
                    Exponent::Plain(e) => {
                        if e < 14 {
                            Exponent::Plain(scaled_down(u as int, (14 - e) as nat) as i64)
                        } else if e <= 18 {
                            let w = u * pow10((e - 14) as nat);
                            if in_i64(w) {
                                Exponent::Plain(w as i64)
                            } else {
                                Exponent::Nested(Box::new(v))
                            }
                        } else {
                            Exponent::Nested(Box::new(v))
                        }
                    },
                    Exponent::Nested(c) => {
                        if is_strictly_positive(*c) {
                            Exponent::Nested(Box::new(v))
                        } else {
                            Exponent::Plain(0)
                        }
                    },
                }
            }
        },
        _ => Exponent::Plain(0),
    }
}

/// Add a small normalization shift to an exponent, promoting to a nested
/// exponent if the plain width overflows; on a nested exponent the shift is
/// added recursively as a value.
pub open spec fn spec_exp_add_small(e: Exponent, s: int) -> Exponent
    decreases 4 * height_e(e) + 2,
{
    match e {
        Exponent::Plain(p) => {
            if in_i64(p + s) {
                Exponent::Plain((p + s) as i64)
            } else {
                Exponent::Nested(Box::new(spec_from_int(p + s)))
            }
        },
        Exponent::Nested(b) => spec_demote(spec_add(*b, spec_from_int(s))),
    }
}

/// Renormalize a raw unit count at an exponent (after a same-exponent
/// mantissa addition): bring the count back into the canonical band and
/// shift the exponent accordingly.
pub open spec fn spec_renorm(u: int, e: Exponent) -> BigFloat
    decreases 4 * height_e(e) + 3,
{
    if u == 0 {
        spec_zero()
    } else {
        let (n, s) = norm_pos(iabs(u), 0);
        BigFloat {
            mantissa: Mantissa::Units(
                (if u > 0 {
                    n
                } else {
                    -n
                }) as i64,
            ),
            exponent: spec_exp_add_small(e, s),
        }
    }
}

/// Addition of two finite non-zero values whose exponents satisfy
/// `hi > lo`. With both exponents plain and a gap of at most 15, the
/// smaller mantissa is scaled down into the larger one's frame and added;
/// past that gap (or once a nested exponent is involved) the smaller
/// operand cannot influence 15 significant digits and `hi` is returned
/// unchanged.
pub open spec fn spec_add_ordered(hi: BigFloat, lo: BigFloat) -> BigFloat
    decreases 4 * (height(hi) + height(lo)),
{
    match (hi.exponent, lo.exponent) {
        (Exponent::Plain(ph), Exponent::Plain(pl)) => {
            let d = ph - pl;
            if d > 15 {
                hi
            } else {
                spec_renorm(units_of(hi) + scaled_down(units_of(lo), d as nat), hi.exponent)
            }
        },
        _ => hi,
    }
}

/// Addition. Zero is an identity; a non-finite side resolves through the
/// mantissa table; equal exponents add mantissas and renormalize; unequal
/// exponents delegate to the ordered case with the larger exponent first.
pub open spec fn spec_add(a: BigFloat, b: BigFloat) -> BigFloat
    decreases 4 * (height(a) + height(b)) + 1,
{
    if a.spec_is_zero() {
        b
    } else if b.spec_is_zero() {
        a
    } else if !a.spec_is_finite() || !b.spec_is_finite() {
        sentinel(nf_add(a.mantissa, b.mantissa))
    } else {
        match spec_cmp_exp(a.exponent, b.exponent) {
            Ordering::Equal => spec_renorm(units_of(a) + units_of(b), a.exponent),
            Ordering::Greater => spec_add_ordered(a, b),
            Ordering::Less => spec_add_ordered(b, a),
        }
    }
}

/// Subtraction is addition of the negated second operand.
pub open spec fn spec_sub(a: BigFloat, b: BigFloat) -> BigFloat {
    spec_add(a, spec_neg(b))
}

/// `10^k`, executably.
pub(crate) fn pow10_exec(k: u64) -> (r: u64)
    requires
        k <= 19,
    ensures
        r as int == pow10(k as nat),
        r >= 1,
    decreases k,
{
    proof {
        pow10_vals();
        crate::bigfloat::lemma_pow10_monotone(k as nat, 19);
        reveal_with_fuel(pow10, 20);
    }
    if k == 0 {
        1
    } else {
        let p = pow10_exec(k - 1);
        10 * p
    }
}

/// `scaled_down`, executably.
fn scaled_exec(u: i64, d: u64) -> (r: i64)
    requires
        iabs(u as int) < TEN_SCALE,
        1 <= d <= 19,
    ensures
        r as int == scaled_down(u as int, d as nat),
{
    let p = pow10_exec(d);
    if u >= 0 {
        ((u as u64) / p) as i64
    } else {
        let q = (((-u) as u64) / p) as i64;
        -q
    }
}

/// Extract the unit count of a finite mantissa (zero for the sentinels).
pub(crate) fn units_of_exec(v: &BigFloat) -> (r: i64)
    ensures
        r as int == units_of(*v),
{
    match v.mantissa {
        Mantissa::Units(u) => u,
        _ => 0,
    }
}

/// `spec_demote`, executably.
pub(crate) fn demote(v: BigFloat) -> (r: Exponent)
    requires
        wf(v),
    ensures
        r == spec_demote(v),
        exp_wf(r),
{
    proof {
        pow10_vals();
    }
    let u: i64 = match v.mantissa {
        Mantissa::Units(u) => u,
        _ => {
            return Exponent::Plain(0);
        },
    };
    if u == 0 {
        return Exponent::Plain(0);
    }
    match &v.exponent {
        Exponent::Plain(e) => {
            let e: i64 = *e;
            if e >= 19 {
                Exponent::Nested(Box::new(v))
            } else if e >= 14 {
                let p = pow10_exec((e - 14) as u64);
                proof {
                    assert(iabs(u as int) < TEN_SCALE);
                    assert(p as int <= pow10(4)) by {
                        crate::bigfloat::lemma_pow10_monotone((e - 14) as nat, 4);
                    }
                    assert(iabs((u as int) * (p as int)) <= TEN_SCALE * pow10(4))
                        by (nonlinear_arith)
                        requires
                            iabs(u as int) < TEN_SCALE,
                            1 <= (p as int) <= pow10(4),
                            pow10(4) == 10000,
                    ;
                }
                let w: i128 = (u as i128) * (p as i128);
                if w >= i64::MIN as i128 && w <= i64::MAX as i128 {
                    Exponent::Plain(w as i64)
                } else {
                    proof {
                        // only e == 18 can overflow here, which is what
                        // beyond_i64 asks about
                        if e < 18 {
                            assert(pow10((e - 14) as nat) <= pow10(3)) by {
                                crate::bigfloat::lemma_pow10_monotone((e - 14) as nat, 3);
                            }
                            assert(iabs(w as int) <= TEN_SCALE * pow10(3)) by (nonlinear_arith)
                                requires
                                    w == u * p,
                                    iabs(u as int) < TEN_SCALE,
                                    1 <= (p as int) <= pow10(3),
                                    pow10(3) == 1000,
                            ;
                            assert(false);
                        }
                    }
                    Exponent::Nested(Box::new(v))
                }
            } else if e >= 0 {
                let q = scaled_exec(u, (14 - e) as u64);
                Exponent::Plain(q)
            } else {
                proof {
                    crate::bigfloat::lemma_pow10_monotone(15, (14 - e) as nat);
                    assert(iabs(u as int) < pow10((14 - e) as nat));
                    if u >= 0 {
                        vstd::arithmetic::div_mod::lemma_basic_div(u as int, pow10((14 - e) as nat));
                    } else {
                        vstd::arithmetic::div_mod::lemma_basic_div(-(u as int), pow10((14 - e) as nat));
                    }
                    assert(scaled_down(u as int, (14 - e) as nat) == 0);
                }
                Exponent::Plain(0)
            }
        },
        Exponent::Nested(c) => {
            if c.is_strictly_positive() {
                Exponent::Nested(Box::new(v))
            } else {
                Exponent::Plain(0)
            }
        },
    }
}

/// `spec_exp_add_small`, executably.
fn exp_add_small_exec(e: &Exponent, s: i64) -> (r: Exponent)
    requires
        exp_wf(*e),
        (-14) <= s <= 5,
    ensures
        r == spec_exp_add_small(*e, s as int),
        exp_wf(r),
    decreases 4 * height_e(*e) + 2,
{
    match e {
        Exponent::Plain(p) => {
            let sum: i128 = (*p as i128) + (s as i128);
            if sum >= i64::MIN as i128 && sum <= i64::MAX as i128 {
                Exponent::Plain(sum as i64)
            } else {
                proof {
                    pow10_vals();
                    lemma_from_int_wf(sum as int);
                    crate::bigfloat::lemma_promoted_beyond(sum as int);
                }
                Exponent::Nested(Box::new(from_i128(sum)))
            }
        },
        Exponent::Nested(b) => {
            proof {
                pow10_vals();
            }
            let sv = from_i128(s as i128);
            let sum = (&**b).add(&sv);
            demote(sum)
        },
    }
}

/// `spec_renorm`, executably.
fn renorm_exec(u: i64, e: &Exponent) -> (r: BigFloat)
    requires
        exp_wf(*e),
    ensures
        r == spec_renorm(u as int, *e),
        wf(r),
    decreases 4 * height_e(*e) + 3,
{
    if u == 0 {
        return BigFloat::zero();
    }
    let mag: u128 = if u < 0 {
        (-(u as i128)) as u128
    } else {
        u as u128
    };
    let (n, s) = crate::bigfloat::norm_units_exec(mag);
    let units: i64 = if u < 0 {
        -(n as i64)
    } else {
        n as i64
    };
    let ex = exp_add_small_exec(e, s);
    BigFloat { mantissa: Mantissa::Units(units), exponent: ex }
}

/// Addition of two finite non-zero values, the larger exponent first.
fn add_ordered(hi: &BigFloat, lo: &BigFloat) -> (r: BigFloat)
    requires
        wf(*hi),
        wf(*lo),
        spec_cmp_exp(hi.exponent, lo.exponent) == Ordering::Greater,
    ensures
        r == spec_add_ordered(*hi, *lo),
        wf(r),
    decreases 4 * (height(*hi) + height(*lo)),
{
    match (&hi.exponent, &lo.exponent) {
        (Exponent::Plain(ph), Exponent::Plain(pl)) => {
            let d: i128 = (*ph as i128) - (*pl as i128);
            if d > 15 {
                clone_big(hi)
            } else {
                proof {
                    assert(1 <= d <= 15);
                }
                let uh = units_of_exec(hi);
                let ul = units_of_exec(lo);
                proof {
                    assert(iabs(ul as int) < TEN_SCALE);
                    assert(iabs(uh as int) < TEN_SCALE);
                }
                let scaled = scaled_exec(ul, d as u64);
                proof {
                    pow10_vals();
                    crate::bigfloat::lemma_pow10_monotone(1, d as nat);
                    lemma_scaled_small(ul as int, d as nat);
                }
                renorm_exec(uh + scaled, &hi.exponent)
            }
        },
        _ => clone_big(hi),
    }
}

/// Scaling down by at least one digit leaves at most `SCALE` in magnitude.
proof fn lemma_scaled_small(u: int, d: nat)
    requires
        iabs(u) < TEN_SCALE,
        d >= 1,
        pow10(d) >= 10,
    ensures
        iabs(scaled_down(u, d)) <= SCALE,
{
    if u >= 0 {
        assert(u / pow10(d) <= u / 10) by {
            vstd::arithmetic::div_mod::lemma_div_is_ordered_by_denominator(u, 10, pow10(d));
        }
        assert(u / 10 <= SCALE);
    } else {
        assert((-u) / pow10(d) <= (-u) / 10) by {
            vstd::arithmetic::div_mod::lemma_div_is_ordered_by_denominator(-u, 10, pow10(d));
        }
        assert((-u) / 10 <= SCALE);
    }
}

impl BigFloat {
    /// Addition. Adding zero returns the other operand; a non-finite
    /// operand resolves through the sentinel table; otherwise the operand
    /// with the larger exponent dominates, and the other mantissa is scaled
    /// into its frame when the exponent gap allows it (at most 15 digits).
    pub fn add(&self, other: &BigFloat) -> (r: BigFloat)
        requires
            wf(*self),
            wf(*other),
        ensures
            r == spec_add(*self, *other),
            wf(r),
        decreases 4 * (height(*self) + height(*other)) + 1,
    {
        if self.is_zero() {
            return clone_big(other);
        }
        if other.is_zero() {
            return clone_big(self);
        }
        if !self.is_finite() || !other.is_finite() {
            return BigFloat {
                mantissa: nf_add_exec(self.mantissa, other.mantissa),
                exponent: Exponent::Plain(0),
            };
        }
        let ua = units_of_exec(self);
        let ub = units_of_exec(other);
        match self.compare_exponents(other) {
            Ordering::Equal => renorm_exec(ua + ub, &self.exponent),
            Ordering::Greater => add_ordered(self, other),
            Ordering::Less => {
                proof {
                    lemma_cmp_exp_flip(self.exponent, other.exponent);
                }
                add_ordered(other, self)
            },
        }
    }

    /// Negation: flips the sign of the mantissa, keeps the exponent.
    pub fn neg(&self) -> (r: BigFloat)
        requires
            wf(*self),
        ensures
            r == spec_neg(*self),
            wf(r),
    {
        match self.mantissa {
            Mantissa::NaN => clone_big(self),
            Mantissa::Inf(s) => BigFloat {
                mantissa: Mantissa::Inf(!s),
                exponent: clone_exponent(&self.exponent),
            },
            Mantissa::Units(u) => BigFloat {
                mantissa: Mantissa::Units(-u),
                exponent: clone_exponent(&self.exponent),
            },
        }
    }

    /// Subtraction: addition of the sign-flipped second operand.
    pub fn sub(&self, other: &BigFloat) -> (r: BigFloat)
        requires
            wf(*self),
            wf(*other),
        ensures
            r == spec_sub(*self, *other),
            wf(r),
    {
        let n = other.neg();
        self.add(&n)
    }

    /// In-place addition.
    pub fn add_assign(&mut self, other: &BigFloat)
        requires
            wf(*old(self)),
            wf(*other),
        ensures
            *final(self) == spec_add(*old(self), *other),
            wf(*final(self)),
    {
        let r = self.add(other);
        *self = r;
    }

    /// In-place subtraction.
    pub fn sub_assign(&mut self, other: &BigFloat)
        requires
            wf(*old(self)),
            wf(*other),
        ensures
            *final(self) == spec_sub(*old(self), *other),
            wf(*final(self)),
    {
        let r = self.sub(other);
        *self = r;
    }
}

/// Mantissa multiplication once at least one side is non-finite: NaN
/// propagates, infinities multiply by the sign rule. (Both sides finite,
/// or either zero, never reaches this table.)
pub open spec fn nf_mul(a: Mantissa, b: Mantissa) -> Mantissa {
    match (a, b) {
        (Mantissa::NaN, _) => Mantissa::NaN,
        (_, Mantissa::NaN) => Mantissa::NaN,
        (Mantissa::Inf(sa), Mantissa::Inf(sb)) => Mantissa::Inf(sa != sb),
        (Mantissa::Inf(sa), Mantissa::Units(u)) => Mantissa::Inf(sa != (u < 0)),
        (Mantissa::Units(u), Mantissa::Inf(sb)) => Mantissa::Inf(sb != (u < 0)),
        (Mantissa::Units(x), Mantissa::Units(_)) => Mantissa::Units(x),
    }
}

/// Mantissa division once at least one side is non-finite: NaN propagates,
/// infinity over infinity is NaN, infinity over finite keeps the sign rule,
/// finite over infinity vanishes. (Both finite, or a zero, never reaches
/// this table.)
pub open spec fn nf_div(a: Mantissa, b: Mantissa) -> Mantissa {
    match (a, b) {
        (Mantissa::NaN, _) => Mantissa::NaN,
        (_, Mantissa::NaN) => Mantissa::NaN,
        (Mantissa::Inf(_), Mantissa::Inf(_)) => Mantissa::NaN,
        (Mantissa::Inf(sa), Mantissa::Units(u)) => Mantissa::Inf(sa != (u < 0)),
        (Mantissa::Units(_), Mantissa::Inf(_)) => Mantissa::Units(0),
        (Mantissa::Units(x), Mantissa::Units(_)) => Mantissa::Units(x),
    }
}

/// Whether a mantissa carries a negative sign (NaN counts as positive).
pub open spec fn mantissa_negative(m: Mantissa) -> bool {
    match m {
        Mantissa::NaN => false,
        Mantissa::Inf(s) => s,
        Mantissa::Units(u) => u < 0,
    }
}

/// An integer exponent, demoted to `Plain` when it fits and promoted to a
/// nested value (rounded away from zero) when it does not.
pub open spec fn plain_or_promote(x: int) -> Exponent {
    if in_i64(x) {
        Exponent::Plain(x as i64)
    } else {
        Exponent::Nested(Box::new(spec_from_int(x)))
    }
}

/// Add two exponents plus a small carry from mantissa renormalization.
/// Plain exponents add as integers, promoting on overflow; a nested
/// exponent combines by recursively adding as values, the plain side
/// converted to a value first. With both sides nested the carry lies far
/// beyond the result's precision and is dropped.
pub open spec fn spec_exp_add(ea: Exponent, eb: Exponent, s: int) -> Exponent
    decreases 4 * (height_e(ea) + height_e(eb)) + 10,
{
    match (ea, eb) {
        (Exponent::Plain(a), Exponent::Plain(b)) => plain_or_promote(a + b + s),
        (Exponent::Plain(a), Exponent::Nested(nb)) => spec_demote(
            spec_add(spec_from_int(a + s), *nb),
        ),
        (Exponent::Nested(na), Exponent::Plain(b)) => spec_demote(
            spec_add(*na, spec_from_int(b + s)),
        ),
        (Exponent::Nested(na), Exponent::Nested(nb)) => spec_demote(spec_add(*na, *nb)),
    }
}

/// Subtract two exponents minus a small borrow from mantissa
/// renormalization; the mirror of `spec_exp_add`.
pub open spec fn spec_exp_sub(ea: Exponent, eb: Exponent, s: int) -> Exponent
    decreases 4 * (height_e(ea) + height_e(eb)) + 10,
{
    match (ea, eb) {
        (Exponent::Plain(a), Exponent::Plain(b)) => plain_or_promote(a - b - s),
        (Exponent::Plain(a), Exponent::Nested(nb)) => spec_demote(
            spec_add(spec_from_int(a - s), spec_neg(*nb)),
        ),
        (Exponent::Nested(na), Exponent::Plain(b)) => spec_demote(
            spec_add(*na, spec_from_int(-b - s)),
        ),
        (Exponent::Nested(na), Exponent::Nested(nb)) => spec_demote(spec_add(*na, spec_neg(*nb))),
    }
}

/// Multiplication. Zero propagates; a non-finite side resolves through the
/// sentinel table; otherwise the mantissas multiply (truncated back to 15
/// significant digits) and the exponents add, with the renormalization
/// carry, promoting to a nested exponent on overflow.
pub open spec fn spec_mul(a: BigFloat, b: BigFloat) -> BigFloat
    decreases 4 * (height(a) + height(b)) + 20,
{
    if a.spec_is_zero() || b.spec_is_zero() {
        spec_zero()
    } else if !a.spec_is_finite() || !b.spec_is_finite() {
        sentinel(nf_mul(a.mantissa, b.mantissa))
    } else {
        let u0 = scaled_down(units_of(a) * units_of(b), 14);
        if iabs(u0) >= TEN_SCALE {
            BigFloat {
                mantissa: Mantissa::Units(scaled_down(u0, 1) as i64),
                exponent: spec_exp_add(a.exponent, b.exponent, 1),
            }
        } else {
            BigFloat {
                mantissa: Mantissa::Units(u0 as i64),
                exponent: spec_exp_add(a.exponent, b.exponent, 0),
            }
        }
    }
}

/// Division. A zero divisor gives an infinity signed by the dividend; a
/// zero dividend gives zero; a non-finite side resolves through the
/// sentinel table; otherwise the mantissas divide (truncated to 15
/// significant digits) and the exponents subtract, borrowing one when the
/// dividend's mantissa magnitude is the smaller.
pub open spec fn spec_div(a: BigFloat, b: BigFloat) -> BigFloat
    decreases 4 * (height(a) + height(b)) + 20,
{
    if b.spec_is_zero() {
        sentinel(Mantissa::Inf(mantissa_negative(a.mantissa)))
    } else if a.spec_is_zero() {
        spec_zero()
    } else if !a.spec_is_finite() || !b.spec_is_finite() {
        sentinel(nf_div(a.mantissa, b.mantissa))
    } else {
        let ua = units_of(a);
        let ub = units_of(b);
        if iabs(ua) >= iabs(ub) {
            BigFloat {
                mantissa: Mantissa::Units(quot_units(ua, ub, 14) as i64),
                exponent: spec_exp_sub(a.exponent, b.exponent, 0),
            }
        } else {
            BigFloat {
                mantissa: Mantissa::Units(quot_units(ua, ub, 15) as i64),
                exponent: spec_exp_sub(a.exponent, b.exponent, 1),
            }
        }
    }
}

/// `(ua * 10^k) / ub` on magnitudes, truncating toward zero, the sign by
/// the usual rule.
pub open spec fn quot_units(ua: int, ub: int, k: nat) -> int {
    let mag = (iabs(ua) * pow10(k)) / iabs(ub);
    if (ua < 0) != (ub < 0) {
        -mag
    } else {
        mag
    }
}

/// The banded mantissa quotient: dividing one banded magnitude by another,
/// scaled by 14 digits (or 15 when the dividend is smaller), lands back in
/// the band.
proof fn lemma_div_band(aa: int, bb: int, k: nat)
    requires
        SCALE <= aa < TEN_SCALE,
        SCALE <= bb < TEN_SCALE,
        k == 14 ==> aa >= bb,
        k == 15 ==> aa < bb,
        k == 14 || k == 15,
    ensures
        SCALE <= (aa * pow10(k)) / bb < TEN_SCALE,
{
    pow10_vals();
    let p = pow10(k);
    assert(aa * p >= bb * (SCALE as int)) by (nonlinear_arith)
        requires
            SCALE <= aa < TEN_SCALE,
            SCALE <= bb < TEN_SCALE,
            (k == 14 && p == SCALE && aa >= bb) || (k == 15 && p == TEN_SCALE && aa < bb),
    ;
    assert(aa * p <= bb * (TEN_SCALE as int) - 1) by (nonlinear_arith)
        requires
            SCALE <= aa < TEN_SCALE,
            SCALE <= bb < TEN_SCALE,
            (k == 14 && p == SCALE && aa >= bb) || (k == 15 && p == TEN_SCALE && aa < bb),
    ;
    assert((bb * (SCALE as int)) / bb == SCALE) by {
        vstd::arithmetic::div_mod::lemma_div_multiples_vanish(SCALE as int, bb);
    }
    assert((bb * (TEN_SCALE as int) - 1) / bb == TEN_SCALE - 1) by {
        assert(bb * (TEN_SCALE as int) - 1 == (TEN_SCALE - 1) * bb + (bb - 1)) by (nonlinear_arith);
        vstd::arithmetic::div_mod::lemma_fundamental_div_mod_converse(
            bb * (TEN_SCALE as int) - 1,
            bb,
            TEN_SCALE - 1,
            bb - 1,
        );
    }
    vstd::arithmetic::div_mod::lemma_div_is_ordered(bb * (SCALE as int), aa * p, bb);
    vstd::arithmetic::div_mod::lemma_div_is_ordered(aa * p, bb * (TEN_SCALE as int) - 1, bb);
}

/// The banded mantissa product: the product of two banded magnitudes,
/// scaled back down by 14 digits, lies in `[SCALE, 100 * SCALE)`.
proof fn lemma_mul_band(aa: int, bb: int)
    requires
        SCALE <= aa < TEN_SCALE,
        SCALE <= bb < TEN_SCALE,
    ensures
        SCALE <= (aa * bb) / (SCALE as int) < 100 * SCALE,
{
    let s: int = SCALE as int;
    assert(aa * bb >= s * s && aa * bb <= 100 * s * s - 1) by (nonlinear_arith)
        requires
            SCALE <= aa < TEN_SCALE,
            SCALE <= bb < TEN_SCALE,
            s == SCALE as int,
    ;
    assert((s * s) / s == s) by {
        vstd::arithmetic::div_mod::lemma_div_multiples_vanish(s, s);
    }
    assert((100 * s * s - 1) / s == 100 * s - 1) by {
        assert(100 * s * s - 1 == (100 * s - 1) * s + (s - 1)) by (nonlinear_arith);
        vstd::arithmetic::div_mod::lemma_fundamental_div_mod_converse(
            100 * s * s - 1,
            s,
            100 * s - 1,
            s - 1,
        );
    }
    vstd::arithmetic::div_mod::lemma_div_is_ordered(s * s, aa * bb, s);
    vstd::arithmetic::div_mod::lemma_div_is_ordered(aa * bb, 100 * s * s - 1, s);
}

/// `spec_exp_add`, executably.
fn exp_add_exec(ea: &Exponent, eb: &Exponent, s: i64) -> (r: Exponent)
    requires
        exp_wf(*ea),
        exp_wf(*eb),
        0 <= s <= 1,
    ensures
        r == spec_exp_add(*ea, *eb, s as int),
        exp_wf(r),
    decreases 4 * (height_e(*ea) + height_e(*eb)) + 10,
{
    proof {
        pow10_vals();
    }
    match (ea, eb) {
        (Exponent::Plain(a), Exponent::Plain(b)) => {
            let sum: i128 = (*a as i128) + (*b as i128) + (s as i128);
            if sum >= i64::MIN as i128 && sum <= i64::MAX as i128 {
                Exponent::Plain(sum as i64)
            } else {
                proof {
                    lemma_from_int_wf(sum as int);
                    crate::bigfloat::lemma_promoted_beyond(sum as int);
                }
                Exponent::Nested(Box::new(from_i128(sum)))
            }
        },
        (Exponent::Plain(a), Exponent::Nested(nb)) => {
            let av = from_i128((*a as i128) + (s as i128));
            let sum = av.add(&**nb);
            demote(sum)
        },
        (Exponent::Nested(na), Exponent::Plain(b)) => {
            let bv = from_i128((*b as i128) + (s as i128));
            let sum = (&**na).add(&bv);
            demote(sum)
        },
        (Exponent::Nested(na), Exponent::Nested(nb)) => {
            let sum = (&**na).add(&**nb);
            demote(sum)
        },
    }
}

/// `spec_exp_sub`, executably.
fn exp_sub_exec(ea: &Exponent, eb: &Exponent, s: i64) -> (r: Exponent)
    requires
        exp_wf(*ea),
        exp_wf(*eb),
        0 <= s <= 1,
    ensures
        r == spec_exp_sub(*ea, *eb, s as int),
        exp_wf(r),
    decreases 4 * (height_e(*ea) + height_e(*eb)) + 10,
{
    proof {
        pow10_vals();
    }
    match (ea, eb) {
        (Exponent::Plain(a), Exponent::Plain(b)) => {
            let diff: i128 = (*a as i128) - (*b as i128) - (s as i128);
            if diff >= i64::MIN as i128 && diff <= i64::MAX as i128 {
                Exponent::Plain(diff as i64)
            } else {
                proof {
                    lemma_from_int_wf(diff as int);
                    crate::bigfloat::lemma_promoted_beyond(diff as int);
                }
                Exponent::Nested(Box::new(from_i128(diff)))
            }
        },
        (Exponent::Plain(a), Exponent::Nested(nb)) => {
            let av = from_i128((*a as i128) - (s as i128));
            let nn = (&**nb).neg();
            let sum = av.add(&nn);
            demote(sum)
        },
        (Exponent::Nested(na), Exponent::Plain(b)) => {
            let bv = from_i128(-(*b as i128) - (s as i128));
            let sum = (&**na).add(&bv);
            demote(sum)
        },
        (Exponent::Nested(na), Exponent::Nested(nb)) => {
            let nn = (&**nb).neg();
            let sum = (&**na).add(&nn);
            demote(sum)
        },
    }
}

impl BigFloat {
    /// Multiplication: zero propagates, non-finite operands resolve through
    /// the sentinel table, and otherwise mantissas multiply (truncated to 15
    /// significant digits) while exponents add, promoting to a nested
    /// exponent when the plain width overflows.
    pub fn mul(&self, other: &BigFloat) -> (r: BigFloat)
        requires
            wf(*self),
            wf(*other),
        ensures
            r == spec_mul(*self, *other),
            wf(r),
    {
        if self.is_zero() || other.is_zero() {
            return BigFloat::zero();
        }
        if !self.is_finite() || !other.is_finite() {
            return BigFloat {
                mantissa: nf_mul_exec(self.mantissa, other.mantissa),
                exponent: Exponent::Plain(0),
            };
        }
        let ua = units_of_exec(self);
        let ub = units_of_exec(other);
        let (units, carry) = mul_units(ua, ub);
        let ex = exp_add_exec(&self.exponent, &other.exponent, carry);
        BigFloat { mantissa: Mantissa::Units(units), exponent: ex }
    }

    /// Division: a zero divisor gives an infinity signed by the dividend, a
    /// zero dividend gives zero, non-finite operands resolve through the
    /// sentinel table, and otherwise mantissas divide while exponents
    /// subtract, borrowing one when the dividend's mantissa is the smaller.
    pub fn div(&self, other: &BigFloat) -> (r: BigFloat)
        requires
            wf(*self),
            wf(*other),
        ensures
            r == spec_div(*self, *other),
            wf(r),
    {
        if other.is_zero() {
            let neg = mantissa_negative_exec(self.mantissa);
            return BigFloat { mantissa: Mantissa::Inf(neg), exponent: Exponent::Plain(0) };
        }
        if self.is_zero() {
            return BigFloat::zero();
        }
        if !self.is_finite() || !other.is_finite() {
            return BigFloat {
                mantissa: nf_div_exec(self.mantissa, other.mantissa),
                exponent: Exponent::Plain(0),
            };
        }
        let ua = units_of_exec(self);
        let ub = units_of_exec(other);
        let neg: bool = (ua < 0) != (ub < 0);
        let ma: u128 = if ua < 0 {
            (-(ua as i128)) as u128
        } else {
            ua as u128
        };
        let mb: u128 = if ub < 0 {
            (-(ub as i128)) as u128
        } else {
            ub as u128
        };
        proof {
            pow10_vals();
        }
        let (q, borrow) = if ma >= mb {
            proof {
                lemma_div_band(ma as int, mb as int, 14);
            }
            ((ma * (SCALE as u128) / mb) as u64, 0i64)
        } else {
            proof {
                lemma_div_band(ma as int, mb as int, 15);
            }
            ((ma * (TEN_SCALE as u128) / mb) as u64, 1i64)
        };
        let units: i64 = if neg {
            -(q as i64)
        } else {
            q as i64
        };
        let ex = exp_sub_exec(&self.exponent, &other.exponent, borrow);
        BigFloat { mantissa: Mantissa::Units(units), exponent: ex }
    }

    /// In-place multiplication.
    pub fn mul_assign(&mut self, other: &BigFloat)
        requires
            wf(*old(self)),
            wf(*other),
        ensures
            *final(self) == spec_mul(*old(self), *other),
            wf(*final(self)),
    {
        let r = self.mul(other);
        *self = r;
    }

    /// In-place division.
    pub fn div_assign(&mut self, other: &BigFloat)
        requires
            wf(*old(self)),
            wf(*other),
        ensures
            *final(self) == spec_div(*old(self), *other),
            wf(*final(self)),
    {
        let r = self.div(other);
        *self = r;
    }
}

/// Multiply two banded mantissas, truncating back to 15 significant
/// digits; the second component is the carry into the exponent.
fn mul_units(ua: i64, ub: i64) -> (r: (i64, i64))
    requires
        SCALE <= iabs(ua as int) < TEN_SCALE,
        SCALE <= iabs(ub as int) < TEN_SCALE,
    ensures
        SCALE <= iabs(r.0 as int) < TEN_SCALE,
        ({
            let u0 = scaled_down((ua as int) * (ub as int), 14);
            if iabs(u0) >= TEN_SCALE {
                r.0 == scaled_down(u0, 1) && r.1 == 1
            } else {
                r.0 == u0 && r.1 == 0
            }
        }),
{
    proof {
        pow10_vals();
        assert((iabs(ua as int) * iabs(ub as int)) < TEN_SCALE * TEN_SCALE && -(TEN_SCALE
            * TEN_SCALE) < (ua as int) * (ub as int) < TEN_SCALE * TEN_SCALE) by (nonlinear_arith)
            requires
                iabs(ua as int) < TEN_SCALE,
                iabs(ub as int) < TEN_SCALE,
        ;
    }
    let p: i128 = (ua as i128) * (ub as i128);
    let neg: bool = (ua < 0) != (ub < 0);
    proof {
        assert(iabs(p as int) == iabs(ua as int) * iabs(ub as int) && (p < 0 <==> ((ua < 0) != (
        ub < 0)))) by (nonlinear_arith)
            requires
                p == (ua as int) * (ub as int),
                iabs(ua as int) >= SCALE,
                iabs(ub as int) >= SCALE,
        ;
        lemma_mul_band(iabs(ua as int), iabs(ub as int));
        lemma_scaled_sign(p as int, 14);
    }
    let mag: u128 = if p < 0 {
        (-p) as u128
    } else {
        p as u128
    };
    let q14: u128 = mag / (SCALE as u128);
    proof {
        assert(q14 as int == iabs(scaled_down(p as int, 14)));
    }
    let (q, carry): (u64, i64) = if q14 >= TEN_SCALE as u128 {
        proof {
            lemma_scaled_sign_small(scaled_down(p as int, 14), 1);
            vstd::arithmetic::div_mod::lemma_div_is_ordered(TEN_SCALE as int, q14 as int, 10);
            vstd::arithmetic::div_mod::lemma_div_is_ordered(
                q14 as int,
                100 * (SCALE as int) - 1,
                10,
            );
            assert((TEN_SCALE as int) / 10 == SCALE as int);
            assert((100 * (SCALE as int) - 1) / 10 == 10 * (SCALE as int) - 1);
        }
        ((q14 / 10) as u64, 1i64)
    } else {
        (q14 as u64, 0i64)
    };
    let units: i64 = if neg {
        -(q as i64)
    } else {
        q as i64
    };
    (units, carry)
}

/// Truncating scaling commutes with taking magnitudes.
proof fn lemma_scaled_sign(u: int, d: nat)
    ensures
        iabs(scaled_down(u, d)) == iabs(u) / pow10(d),
        u >= 0 ==> scaled_down(u, d) >= 0,
        u < 0 ==> scaled_down(u, d) <= 0,
{
    crate::bigfloat::lemma_pow10_monotone(0, d);
    if u >= 0 {
        vstd::arithmetic::div_mod::lemma_div_is_ordered(0, u, pow10(d));
    } else {
        vstd::arithmetic::div_mod::lemma_div_is_ordered(0, -u, pow10(d));
    }
}

/// As above, for a second one-digit scaling step.
proof fn lemma_scaled_sign_small(u: int, d: nat)
    ensures
        iabs(scaled_down(u, d)) == iabs(u) / pow10(d),
{
    lemma_scaled_sign(u, d);
}

/// `mantissa_negative`, executably.
fn mantissa_negative_exec(m: Mantissa) -> (r: bool)
    ensures
        r == mantissa_negative(m),
{
    match m {
        Mantissa::NaN => false,
        Mantissa::Inf(s) => s,
        Mantissa::Units(u) => u < 0,
    }
}

/// `nf_mul`, executably.
fn nf_mul_exec(a: Mantissa, b: Mantissa) -> (r: Mantissa)
    ensures
        r == nf_mul(a, b),
{
    match (a, b) {
        (Mantissa::NaN, _) => Mantissa::NaN,
        (_, Mantissa::NaN) => Mantissa::NaN,
        (Mantissa::Inf(sa), Mantissa::Inf(sb)) => Mantissa::Inf(sa != sb),
        (Mantissa::Inf(sa), Mantissa::Units(u)) => Mantissa::Inf(sa != (u < 0)),
        (Mantissa::Units(u), Mantissa::Inf(sb)) => Mantissa::Inf(sb != (u < 0)),
        (Mantissa::Units(x), Mantissa::Units(_)) => Mantissa::Units(x),
    }
}

/// `nf_div`, executably.
fn nf_div_exec(a: Mantissa, b: Mantissa) -> (r: Mantissa)
    ensures
        r == nf_div(a, b),
{
    match (a, b) {
        (Mantissa::NaN, _) => Mantissa::NaN,
        (_, Mantissa::NaN) => Mantissa::NaN,
        (Mantissa::Inf(_), Mantissa::Inf(_)) => Mantissa::NaN,
        (Mantissa::Inf(sa), Mantissa::Units(u)) => Mantissa::Inf(sa != (u < 0)),
        (Mantissa::Units(_), Mantissa::Inf(_)) => Mantissa::Units(0),
        (Mantissa::Units(x), Mantissa::Units(_)) => Mantissa::Units(x),
    }
}

/// `nf_add`, executably.
fn nf_add_exec(a: Mantissa, b: Mantissa) -> (r: Mantissa)
    ensures
        r == nf_add(a, b),
{
    match (a, b) {
        (Mantissa::NaN, _) => Mantissa::NaN,
        (_, Mantissa::NaN) => Mantissa::NaN,
        (Mantissa::Inf(sa), Mantissa::Inf(sb)) => {
            if sa == sb {
                Mantissa::Inf(sa)
            } else {
                Mantissa::NaN
            }
        },
        (Mantissa::Inf(sa), Mantissa::Units(_)) => Mantissa::Inf(sa),
        (Mantissa::Units(_), Mantissa::Inf(sb)) => Mantissa::Inf(sb),
        (Mantissa::Units(x), Mantissa::Units(_)) => Mantissa::Units(x),
    }
}

} // verus!
