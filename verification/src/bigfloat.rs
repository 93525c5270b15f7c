//! The value representation: a fixed-point decimal mantissa together with a
//! power-of-ten exponent that is either a plain signed integer or, when an
//! operation would overflow that width, a nested value of the same type.
//!
//! Canonical form (see [`wf`]): a non-zero finite mantissa holds exactly 15
//! significant decimal digits, i.e. its unit count lies in `[10^14, 10^15)`
//! in magnitude, so the represented mantissa lies in `[1, 10)`; zero is
//! represented with exponent `Plain(0)`, and so are the NaN and infinity
//! sentinels, whose exponent carries no information. Plain exponents are
//! signed: values below one carry a negative exponent.

use vstd::prelude::*;

verus! {

/// Units of mantissa per 1.0: a mantissa is a count of units of `10^-14`,
/// giving 15 significant decimal digits.
pub const SCALE: i64 = 100_000_000_000_000;

/// `10 * SCALE`: one past the largest normalized mantissa unit count.
pub const TEN_SCALE: i64 = 1_000_000_000_000_000;

/// The mantissa of a [`BigFloat`]: a NaN sentinel, a signed infinity
/// sentinel (`true` means negative), or a finite count of units of `10^-14`.
#[derive(Debug, Clone, Copy, PartialEq, Eq)]
pub enum Mantissa {
    NaN,
    Inf(bool),
    Units(i64),
}

/// The power-of-ten exponent of a [`BigFloat`]: a plain signed integer in
/// the common case, or a nested value once an operation has overflowed the
/// plain width.
#[derive(Debug, PartialEq, Eq)]
pub enum Exponent {
    Plain(i64),
    Nested(Box<BigFloat>),
}

/// A scalar of the form mantissa × 10^exponent, where the exponent may
/// recursively be another `BigFloat`.
#[derive(Debug, PartialEq, Eq)]
pub struct BigFloat {
    pub mantissa: Mantissa,
    pub exponent: Exponent,
}

/// `10^k`.
pub open spec fn pow10(k: nat) -> int
    decreases k,
{
    if k == 0 {
        1
    } else {
        10 * pow10((k - 1) as nat)
    }
}

/// Whether `x` fits the plain exponent width.
pub open spec fn in_i64(x: int) -> bool {
    i64::MIN <= x <= i64::MAX
}

/// Magnitude of an integer.
pub open spec fn iabs(x: int) -> int {
    if x >= 0 {
        x
    } else {
        -x
    }
}

/// Divide a positive unit count by ten, truncating, until it is below
/// `10 * SCALE`; each step raises the exponent by one.
pub open spec fn shrink(n: int, e: int) -> (int, int)
    decreases n,
{
    if n >= TEN_SCALE {
        shrink(n / 10, e + 1)
    } else {
        (n, e)
    }
}

/// Multiply a positive unit count by ten until it reaches `SCALE`; each step
/// lowers the exponent by one.
pub open spec fn grow(n: int, e: int) -> (int, int)
    decreases (if 0 < n < SCALE {
        SCALE - n
    } else {
        0
    }),
{
    if 0 < n < SCALE {
        grow(n * 10, e - 1)
    } else {
        (n, e)
    }
}

/// Normalize a positive unit count into `[SCALE, 10 * SCALE)`, adjusting the
/// exponent to keep the represented magnitude (truncation aside) unchanged.
pub open spec fn norm_pos(n: int, e: int) -> (int, int) {
    let (n1, e1) = shrink(n, e);
    grow(n1, e1)
}

/// Divide a positive unit count by ten, rounding away from zero, until it is
/// below `10 * SCALE`. Used when converting an overflowed plain exponent to
/// a nested value, so that the nested value never falls back inside the
/// plain width.
pub open spec fn shrink_up(n: int, e: int) -> (int, int)
    decreases n,
{
    if n >= TEN_SCALE {
        shrink_up((n + 9) / 10, e + 1)
    } else {
        (n, e)
    }
}

/// The canonical value with mantissa unit count `m` (at exponent `e`), for
/// `m` already normalized and `e` a plain-width exponent.
pub open spec fn finite_plain(m: int, e: int) -> BigFloat {
    BigFloat { mantissa: Mantissa::Units(m as i64), exponent: Exponent::Plain(e as i64) }
}

/// Canonical zero.
pub open spec fn spec_zero() -> BigFloat {
    BigFloat { mantissa: Mantissa::Units(0), exponent: Exponent::Plain(0) }
}

/// The canonical value of the integer `x`, for `x` beyond 15 significant
/// digits rounded away from zero. Conversion of an overflowed exponent
/// rounds away from zero so that the result stays beyond the plain width.
pub open spec fn spec_from_int(x: int) -> BigFloat {
    if x == 0 {
        spec_zero()
    } else {
        let (n, e) = spec_from_int_pair(iabs(x));
        finite_plain(if x > 0 { n } else { -n }, e)
    }
}

/// Normalized (units, exponent) pair for the positive integer `n`, rounding
/// away from zero.
pub open spec fn spec_from_int_pair(n: int) -> (int, int) {
    let (n1, e1) = shrink_up(n, 14);
    grow(n1, e1)
}

/// The canonical value of `u × 10^(e - 14)`: zero when `u` is zero,
/// otherwise the sign is carried by the units and the magnitude is
/// normalized; if the adjusted exponent leaves the plain width it is
/// promoted to a nested value.
pub open spec fn spec_norm(u: int, e: int) -> BigFloat {
    if u == 0 {
        spec_zero()
    } else {
        let (n, e1) = norm_pos(iabs(u), e);
        let m = if u > 0 {
            n
        } else {
            -n
        };
        if in_i64(e1) {
            finite_plain(m, e1)
        } else {
            BigFloat {
                mantissa: Mantissa::Units(m as i64),
                exponent: Exponent::Nested(Box::new(spec_from_int(e1))),
            }
        }
    }
}

/// Whether a finite value's magnitude lies beyond the plain exponent width,
/// so that demoting its exponent back to `Plain` is impossible. A nested
/// exponent is astronomically large in magnitude, hence its sign alone
/// decides.
pub open spec fn beyond_i64(v: BigFloat) -> bool {
    match v.mantissa {
        Mantissa::Units(u) => match v.exponent {
            Exponent::Plain(e) => {
                e >= 19 || (e == 18 && !in_i64(u * 10000))
            },
            Exponent::Nested(b) => is_strictly_positive(*b),
        },
        _ => false,
    }
}

/// Whether a value is finite with a positive (non-zero) mantissa.
pub open spec fn is_strictly_positive(v: BigFloat) -> bool {
    match v.mantissa {
        Mantissa::Units(u) => u > 0,
        _ => false,
    }
}

/// A value fit to serve as a nested exponent: finite, non-zero, and beyond
/// the plain exponent width (promotion happens only on overflow).
pub open spec fn nested_ok(v: BigFloat) -> bool {
    match v.mantissa {
        Mantissa::Units(u) => u != 0 && beyond_i64(v),
        _ => false,
    }
}

/// The canonical-form invariant. Every constructor and operation of this
/// library returns a well-formed value:
/// - a NaN or infinite mantissa comes with exponent `Plain(0)`;
/// - zero is `Units(0)` with exponent `Plain(0)`;
/// - a non-zero finite mantissa holds exactly 15 significant digits
///   (`SCALE <= |units| < 10 * SCALE`, i.e. `1 <= |mantissa| < 10`);
/// - a nested exponent is itself well-formed, finite, non-zero, and beyond
///   the plain width.
pub open spec fn wf(v: BigFloat) -> bool
    decreases v,
{
    match v.mantissa {
        Mantissa::NaN => v.exponent == Exponent::Plain(0),
        Mantissa::Inf(_) => v.exponent == Exponent::Plain(0),
        Mantissa::Units(u) => {
            if u == 0 {
                v.exponent == Exponent::Plain(0)
            } else {
                SCALE <= iabs(u as int) < TEN_SCALE && match v.exponent {
                    Exponent::Plain(_) => true,
                    Exponent::Nested(b) => wf(*b) && nested_ok(*b),
                }
            }
        },
    }
}

/// `shrink` keeps a unit count at or above `SCALE` within the normalized
/// band, and moves the exponent up by less than `k` when the count is below
/// `10^(15 + k)`.
proof fn lemma_shrink(n: int, e: int, k: nat)
    requires
        SCALE <= n < TEN_SCALE * pow10(k),
    ensures
        SCALE <= shrink(n, e).0 < TEN_SCALE,
        e <= shrink(n, e).1 <= e + k,
    decreases k,
{
    if n >= TEN_SCALE {
        assert(k > 0) by {
            if k == 0 {
                assert(pow10(0) == 1);
            }
        }
        assert(n / 10 < TEN_SCALE * pow10((k - 1) as nat)) by {
            assert(TEN_SCALE * pow10(k) == 10 * (TEN_SCALE * pow10((k - 1) as nat)))
                by (nonlinear_arith)
                requires
                    pow10(k) == 10 * pow10((k - 1) as nat),
            ;
        }
        lemma_shrink(n / 10, e + 1, (k - 1) as nat);
    }
}

/// `grow` brings a positive unit count below `10 * SCALE` into the
/// normalized band, moving the exponent down by at most `k` when the count
/// is at least `10^(14 - k)` (for `k <= 14`).
proof fn lemma_grow(n: int, e: int, k: nat)
    requires
        k <= 14,
        0 < n < TEN_SCALE,
        n * pow10(k) >= SCALE,
    ensures
        SCALE <= grow(n, e).0 < TEN_SCALE,
        e - k <= grow(n, e).1 <= e,
    decreases k,
{
    if 0 < n < SCALE {
        assert(k > 0) by {
            if k == 0 {
                assert(pow10(0) == 1);
            }
        }
        assert((n * 10) * pow10((k - 1) as nat) >= SCALE) by (nonlinear_arith)
            requires
                pow10(k) == 10 * pow10((k - 1) as nat),
                n * pow10(k) >= SCALE,
        ;
        assert(n * 10 < TEN_SCALE);
        lemma_grow(n * 10, e - 1, (k - 1) as nat);
    }
}

/// Normalizing a positive unit count below `10^20` yields a count in the
/// normalized band and shifts the exponent by at most 5 up or 14 down.
pub proof fn lemma_norm_pos(n: int, e: int)
    requires
        0 < n < pow10(20),
    ensures
        SCALE <= norm_pos(n, e).0 < TEN_SCALE,
        e - 14 <= norm_pos(n, e).1 <= e + 5,
{
    assert(pow10(20) == TEN_SCALE * pow10(5)) by { pow10_vals(); }
    assert(pow10(14) == SCALE as int) by { pow10_vals(); }
    if n >= SCALE {
        lemma_shrink(n, e, 5);
        let (n1, e1) = shrink(n, e);
        assert(grow(n1, e1) == (n1, e1));
    } else {
        assert(shrink(n, e) == (n, e));
        // some k <= 14 has n * 10^k >= SCALE: take the largest power needed
        lemma_grow_applicable(n, e);
    }
}

/// For `0 < n < SCALE` there is a `k <= 14` with `n * 10^k >= SCALE`, so
/// `grow` lands in the normalized band.
pub(crate) proof fn lemma_grow_applicable(n: int, e: int)
    requires
        0 < n < SCALE,
    ensures
        SCALE <= grow(n, e).0 < TEN_SCALE,
        e - 14 <= grow(n, e).1 <= e,
{
    assert(pow10(14) == SCALE as int) by { pow10_vals(); }
    assert(n * pow10(14) >= SCALE) by (nonlinear_arith)
        requires
            n >= 1,
            pow10(14) == SCALE as int,
    ;
    lemma_grow(n, e, 14);
}

/// `shrink_up` (rounding away from zero) also lands in the normalized band;
/// the carry of the rounding can cost one extra step.
proof fn lemma_shrink_up(n: int, e: int, k: nat)
    requires
        SCALE <= n <= TEN_SCALE * pow10(k),
    ensures
        SCALE <= shrink_up(n, e).0 < TEN_SCALE,
        e <= shrink_up(n, e).1 <= e + k + 1,
    decreases k,
{
    if n >= TEN_SCALE {
        if k == 0 {
            assert(pow10(0) == 1);
            assert(n == TEN_SCALE);
            assert((n + 9) / 10 == SCALE as int);
            assert(shrink_up(SCALE as int, e + 1) == (SCALE as int, e + 1));
        } else {
            assert((n + 9) / 10 <= TEN_SCALE * pow10((k - 1) as nat)) by {
                assert(TEN_SCALE * pow10(k) == 10 * (TEN_SCALE * pow10((k - 1) as nat)))
                    by (nonlinear_arith)
                    requires
                        pow10(k) == 10 * pow10((k - 1) as nat),
                ;
            }
            assert((n + 9) / 10 >= SCALE);
            lemma_shrink_up((n + 9) / 10, e + 1, (k - 1) as nat);
        }
    }
}

/// `spec_from_int` of a non-zero integer below `10^20` in magnitude is a
/// well-formed finite non-zero value.
pub proof fn lemma_from_int_wf(x: int)
    requires
        x != 0,
        iabs(x) < pow10(20),
    ensures
        wf(spec_from_int(x)),
        spec_from_int(x).mantissa is Units,
        spec_from_int(x).exponent is Plain,
{
    let n = iabs(x);
    assert(pow10(20) == TEN_SCALE * pow10(5)) by { pow10_vals(); }
    assert(pow10(14) == SCALE as int) by { pow10_vals(); }
    if n >= SCALE {
        lemma_shrink_up(n, 14, 5);
        let (n1, e1) = shrink_up(n, 14);
        assert(grow(n1, e1) == (n1, e1));
    } else {
        assert(shrink_up(n, 14) == (n, 14int));
        lemma_grow_applicable(n, 14);
    }
}

/// `spec_from_int` is well-formed for any argument of at most 20 digits,
/// zero included.
pub proof fn lemma_from_int_wf_total(x: int)
    requires
        iabs(x) < pow10(20),
    ensures
        wf(spec_from_int(x)),
{
    if x != 0 {
        lemma_from_int_wf(x);
    }
}

/// `spec_norm` of a unit count within `i64` range is well-formed, provided
/// a promoted exponent (one step beyond the plain width) stays well-formed.
pub proof fn lemma_spec_norm_wf(u: int, e: int)
    requires
        in_i64(u) || iabs(u) < pow10(20),
        iabs(e) <= 50_000_000_000_000_000_000,
    ensures
        wf(spec_norm(u, e)),
{
    if u != 0 {
        let n = iabs(u);
        assert(iabs(u) < pow10(20)) by {
            assert(pow10(20) == 100_000_000_000_000_000_000) by { pow10_vals(); }
        }
        lemma_norm_pos(n, e);
        let (n1, e1) = norm_pos(n, e);
        if !in_i64(e1) {
            // promoted: |e1| is just beyond the i64 range, and rounding away
            // from zero keeps the nested value beyond it
            assert(pow10(20) == 100_000_000_000_000_000_000) by { pow10_vals(); }
            assert(iabs(e1) < pow10(20));
            lemma_from_int_wf(e1);
            lemma_promoted_beyond(e1);
        }
    }
}

/// An integer just beyond the plain width converts (rounding away from
/// zero) to a value that is still beyond the plain width.
pub(crate) proof fn lemma_promoted_beyond(x: int)
    requires
        !in_i64(x),
        iabs(x) < pow10(20),
    ensures
        nested_ok(spec_from_int(x)),
{
    let n = iabs(x);
    assert(pow10(20) == TEN_SCALE * pow10(5)) by { pow10_vals(); }
    assert(n >= SCALE) by {
        assert(n > i64::MAX);
    }
    lemma_shrink_up(n, 14, 5);
    let (n1, e1) = shrink_up(n, 14);
    assert(grow(n1, e1) == (n1, e1));
    lemma_shrink_up_value(n, 14);
    // n1 * 10^(e1 - 14) >= n > i64::MAX, and e1 is 18 or 19 here
    assert(pow10(14) == SCALE as int) by { pow10_vals(); }
    if e1 == 18 {
        assert(n1 * pow10(4) >= n) by {
            assert(pow10((e1 - 14) as nat) == pow10(4));
        }
        assert(pow10(4) == 10000) by { pow10_vals(); }
        assert(!in_i64(n1 * 10000)) by {
            assert(n1 * 10000 >= n > i64::MAX);
        }
    } else if e1 < 18 {
        // impossible: the value would fit the plain width
        assert(n1 * pow10((e1 - 14) as nat) >= n);
        assert(n1 < TEN_SCALE);
        lemma_pow10_monotone((e1 - 14) as nat, 3);
        assert(n1 * pow10((e1 - 14) as nat) <= TEN_SCALE * pow10(3)) by (nonlinear_arith)
            requires
                0 < n1 < TEN_SCALE,
                0 < pow10((e1 - 14) as nat) <= pow10(3),
        ;
        assert(TEN_SCALE * pow10(3) < i64::MAX) by { pow10_vals(); }
        assert(false);
    }
}

/// Concrete values of the small powers of ten the proofs here lean on.
pub proof fn pow10_vals()
    ensures
        pow10(0) == 1,
        pow10(1) == 10,
        pow10(2) == 100,
        pow10(3) == 1000,
        pow10(4) == 10000,
        pow10(5) == 100_000,
        pow10(6) == 1_000_000,
        pow10(7) == 10_000_000,
        pow10(8) == 100_000_000,
        pow10(14) == SCALE as int,
        pow10(15) == TEN_SCALE as int,
        pow10(18) == 1_000_000_000_000_000_000,
        pow10(19) == 10_000_000_000_000_000_000,
        pow10(20) == 100_000_000_000_000_000_000,
{
    reveal_with_fuel(pow10, 21);
}

/// `pow10` is monotone.
pub proof fn lemma_pow10_monotone(a: nat, b: nat)
    requires
        a <= b,
    ensures
        pow10(a) <= pow10(b),
        pow10(a) >= 1,
    decreases b,
{
    if b > 0 {
        if a == b {
            lemma_pow10_monotone((a - 1) as nat, (b - 1) as nat);
        } else {
            lemma_pow10_monotone(a, (b - 1) as nat);
        }
    }
}

/// `shrink_up` never lowers the represented magnitude: the resulting count,
/// scaled back up, is at least the original count.
proof fn lemma_shrink_up_value(n: int, e: int)
    requires
        0 < n,
    ensures
        shrink_up(n, e).0 * pow10((shrink_up(n, e).1 - e) as nat) >= n,
        shrink_up(n, e).1 >= e,
    decreases n,
{
    if n >= TEN_SCALE {
        let m = (n + 9) / 10;
        lemma_shrink_up_value(m, e + 1);
        let (n1, e1) = shrink_up(m, e + 1);
        assert(m * 10 >= n);
        lemma_pow10_monotone(0, (e1 - e - 1) as nat);
        assert(pow10((e1 - e) as nat) == 10 * pow10((e1 - e - 1) as nat));
        assert(n1 * pow10((e1 - e) as nat) >= m * 10) by (nonlinear_arith)
            requires
                n1 * pow10((e1 - e - 1) as nat) >= m,
                pow10((e1 - e) as nat) == 10 * pow10((e1 - e - 1) as nat),
                pow10((e1 - e - 1) as nat) >= 0,
                m > 0,
        ;
    } else {
        assert(pow10(0) == 1);
    }
}

/// The starting exponent only shifts the result of `shrink`.
proof fn lemma_shrink_offset(n: int, e: int)
    ensures
        shrink(n, e).0 == shrink(n, 0).0,
        shrink(n, e).1 == e + shrink(n, 0).1,
    decreases n,
{
    if n >= TEN_SCALE {
        lemma_shrink_offset(n / 10, e + 1);
        lemma_shrink_offset(n / 10, 1);
    }
}

/// The starting exponent only shifts the result of `grow`.
proof fn lemma_grow_offset(n: int, e: int)
    ensures
        grow(n, e).0 == grow(n, 0).0,
        grow(n, e).1 == e + grow(n, 0).1,
    decreases (if 0 < n < SCALE {
        SCALE - n
    } else {
        0
    }),
{
    if 0 < n < SCALE {
        lemma_grow_offset(n * 10, e - 1);
        lemma_grow_offset(n * 10, -1);
    }
}

/// The starting exponent only shifts the result of `shrink_up`.
proof fn lemma_shrink_up_offset(n: int, e: int)
    ensures
        shrink_up(n, e).0 == shrink_up(n, 0).0,
        shrink_up(n, e).1 == e + shrink_up(n, 0).1,
    decreases n,
{
    if n >= TEN_SCALE {
        lemma_shrink_up_offset((n + 9) / 10, e + 1);
        lemma_shrink_up_offset((n + 9) / 10, 1);
    }
}

/// `shrink`, executably: returns the reduced count and the number of
/// divisions taken.
fn shrink_exec(n: u128) -> (r: (u64, i64))
    requires
        0 < n,
    ensures
        (r.0 as int, r.1 as int) == shrink(n as int, 0),
        0 <= r.1 <= 25,
    decreases n,
{
    if n >= TEN_SCALE as u128 {
        let (m, c) = shrink_exec(n / 10);
        proof {
            lemma_shrink_offset(n as int / 10, 1);
            pow10_vals();
            lemma_pow10_big();
            lemma_shrink(n as int, 0, 25);
        }
        (m, c + 1)
    } else {
        (n as u64, 0)
    }
}

/// `pow10(25)` covers every `u128` division chain this module performs.
proof fn lemma_pow10_big()
    ensures
        pow10(25) == 10_000_000_000_000_000_000_000_000,
        TEN_SCALE * pow10(25) > u128::MAX,
{
    reveal_with_fuel(pow10, 26);
}

/// `grow`, executably.
fn grow_exec(n: u64) -> (r: (u64, i64))
    requires
        0 < n < TEN_SCALE as u64,
    ensures
        (r.0 as int, r.1 as int) == grow(n as int, 0),
        -14 <= r.1 <= 0,
    decreases (if 0 < (n as int) && (n as int) < SCALE {
        SCALE - n as int
    } else {
        0
    }),
{
    if n < SCALE as u64 {
        let (m, c) = grow_exec(n * 10);
        proof {
            lemma_grow_offset(n as int * 10, -1);
            lemma_grow_applicable(n as int, 0);
        }
        (m, c - 1)
    } else {
        (n, 0)
    }
}

/// `shrink_up`, executably.
fn shrink_up_exec(n: u128) -> (r: (u64, i64))
    requires
        0 < n <= 100_000_000_000_000_000_000u128,
    ensures
        (r.0 as int, r.1 as int) == shrink_up(n as int, 0),
        0 <= r.1 <= 6,
    decreases n,
{
    if n >= TEN_SCALE as u128 {
        let (m, c) = shrink_up_exec((n + 9) / 10);
        proof {
            lemma_shrink_up_offset((n as int + 9) / 10, 1);
            pow10_vals();
            lemma_shrink_up(n as int, 0, 5);
        }
        (m, c + 1)
    } else {
        (n as u64, 0)
    }
}

/// The starting exponent only shifts the result of normalization.
pub(crate) proof fn lemma_norm_pos_offset(n: int, e: int)
    ensures
        norm_pos(n, e).0 == norm_pos(n, 0).0,
        norm_pos(n, e).1 == e + norm_pos(n, 0).1,
{
    lemma_shrink_offset(n, e);
    lemma_grow_offset(shrink(n, 0).0, e + shrink(n, 0).1);
    lemma_grow_offset(shrink(n, 0).0, shrink(n, 0).1);
}

/// `spec_norm`, executably, for an exponent wider than the plain width
/// (as arises when a parsed exponent and a normalization shift combine).
pub(crate) fn norm_at(mantissa: i128, exponent: i128) -> (r: BigFloat)
    requires
        iabs(mantissa as int) < 100_000_000_000_000_000_000,
        iabs(exponent as int) <= 50_000_000_000_000_000_000 - 14,
    ensures
        r == spec_norm(mantissa as int, exponent as int),
        wf(r),
{
    proof {
        pow10_vals();
        lemma_spec_norm_wf(mantissa as int, exponent as int);
    }
    if mantissa == 0 {
        return BigFloat::zero();
    }
    let mag: u128 = if mantissa < 0 {
        (-mantissa) as u128
    } else {
        mantissa as u128
    };
    let (m2, s2) = norm_units_exec(mag);
    proof {
        pow10_vals();
        lemma_norm_pos(mag as int, exponent as int);
        lemma_norm_pos_offset(mag as int, exponent as int);
        assert((m2 as int, exponent as int + s2 as int) == norm_pos(mag as int, exponent as int));
    }
    let e1: i128 = exponent + s2 as i128;
    let units: i64 = if mantissa < 0 {
        -(m2 as i64)
    } else {
        m2 as i64
    };
    if e1 >= i64::MIN as i128 && e1 <= i64::MAX as i128 {
        BigFloat { mantissa: Mantissa::Units(units), exponent: Exponent::Plain(e1 as i64) }
    } else {
        let nested = from_i128(e1);
        BigFloat { mantissa: Mantissa::Units(units), exponent: Exponent::Nested(Box::new(nested)) }
    }
}

/// Normalize a positive magnitude into the canonical band, returning the
/// banded unit count and the exponent shift it took.
pub(crate) fn norm_units_exec(mag: u128) -> (r: (u64, i64))
    requires
        0 < mag < 100_000_000_000_000_000_000u128,
    ensures
        (r.0 as int, r.1 as int) == norm_pos(mag as int, 0),
        SCALE <= (r.0 as int) < TEN_SCALE,
        (-14) <= r.1 <= 5,
{
    proof {
        pow10_vals();
        lemma_pow10_big();
        lemma_norm_pos(mag as int, 0);
        if mag as int >= TEN_SCALE {
            lemma_shrink(mag as int, 0, 25);
        }
    }
    let (m, s) = shrink_exec(mag);
    if m < SCALE as u64 {
        let (g0, g1) = grow_exec(m);
        proof {
            lemma_grow_offset(shrink(mag as int, 0).0, shrink(mag as int, 0).1);
        }
        (g0, s + g1)
    } else {
        proof {
            assert(grow(m as int, 0) == (m as int, 0int));
            lemma_grow_offset(shrink(mag as int, 0).0, shrink(mag as int, 0).1);
        }
        (m, s)
    }
}

/// `spec_from_int`, executably: the canonical value of an integer of at
/// most 20 digits, rounding away from zero beyond 15 significant digits.
pub(crate) fn from_i128(x: i128) -> (r: BigFloat)
    requires
        iabs(x as int) < 100_000_000_000_000_000_000,
    ensures
        r == spec_from_int(x as int),
        wf(r),
        x != 0 ==> r.mantissa is Units && !r.spec_is_zero() && r.exponent is Plain,
{
    proof {
        pow10_vals();
    }
    if x == 0 {
        return BigFloat::zero();
    }
    let mag: u128 = if x < 0 {
        (-x) as u128
    } else {
        x as u128
    };
    let (m, e) = if mag >= SCALE as u128 {
        let (m0, c) = shrink_up_exec(mag);
        proof {
            lemma_shrink_up_offset(mag as int, 14);
            lemma_shrink_up(mag as int, 14, 5);
            let (n1, e1) = shrink_up(mag as int, 14);
            assert(grow(n1, e1) == (n1, e1));
        }
        (m0, c + 14)
    } else {
        let (m0, c) = grow_exec(mag as u64);
        proof {
            assert(shrink_up(mag as int, 14) == (mag as int, 14int));
            lemma_grow_offset(mag as int, 14);
            lemma_grow_applicable(mag as int, 14);
        }
        (m0, c + 14)
    };
    proof {
        lemma_from_int_wf(x as int);
    }
    let units: i64 = if x < 0 {
        -(m as i64)
    } else {
        m as i64
    };
    BigFloat { mantissa: Mantissa::Units(units), exponent: Exponent::Plain(e) }
}

impl BigFloat {
    /// Build and normalize: the value `mantissa × 10^(exponent - 14)`, i.e.
    /// `mantissa` counts units of `10^-14` as everywhere in this library.
    /// The unit count is brought into the canonical band and the exponent
    /// adjusted to match; if the adjustment overflows the plain exponent
    /// width, the exponent is promoted to a nested value.
    pub fn new(mantissa: i64, exponent: i64) -> (r: BigFloat)
        ensures
            r == spec_norm(mantissa as int, exponent as int),
            wf(r),
    {
        norm_at(mantissa as i128, exponent as i128)
    }

    /// The canonical value of the integer `n` (exact up to 15 significant
    /// digits, rounded away from zero beyond them).
    pub fn from_int(n: i64) -> (r: BigFloat)
        ensures
            r == spec_from_int(n as int),
            wf(r),
    {
        proof {
            pow10_vals();
        }
        from_i128(n as i128)
    }

    /// Canonical zero.
    pub fn zero() -> (r: BigFloat)
        ensures
            r == spec_zero(),
            wf(r),
    {
        BigFloat { mantissa: Mantissa::Units(0), exponent: Exponent::Plain(0) }
    }

    /// The value one.
    pub fn one() -> (r: BigFloat)
        ensures
            r == finite_plain(SCALE as int, 0),
            wf(r),
    {
        BigFloat { mantissa: Mantissa::Units(SCALE), exponent: Exponent::Plain(0) }
    }

    /// The NaN sentinel.
    pub fn nan() -> (r: BigFloat)
        ensures
            r == (BigFloat { mantissa: Mantissa::NaN, exponent: Exponent::Plain(0) }),
            wf(r),
    {
        BigFloat { mantissa: Mantissa::NaN, exponent: Exponent::Plain(0) }
    }

    /// Positive infinity.
    pub fn infinity() -> (r: BigFloat)
        ensures
            r == (BigFloat { mantissa: Mantissa::Inf(false), exponent: Exponent::Plain(0) }),
            wf(r),
    {
        BigFloat { mantissa: Mantissa::Inf(false), exponent: Exponent::Plain(0) }
    }

    /// Negative infinity.
    pub fn neg_infinity() -> (r: BigFloat)
        ensures
            r == (BigFloat { mantissa: Mantissa::Inf(true), exponent: Exponent::Plain(0) }),
            wf(r),
    {
        BigFloat { mantissa: Mantissa::Inf(true), exponent: Exponent::Plain(0) }
    }

    /// Whether the value is (exactly) zero.
    pub fn is_zero(&self) -> (r: bool)
        ensures
            r == self.spec_is_zero(),
    {
        match self.mantissa {
            Mantissa::Units(u) => u == 0,
            _ => false,
        }
    }

    /// Whether the mantissa is finite (neither NaN nor infinite).
    pub fn is_finite(&self) -> (r: bool)
        ensures
            r == self.spec_is_finite(),
    {
        match self.mantissa {
            Mantissa::Units(_) => true,
            _ => false,
        }
    }

    /// Whether the mantissa is the NaN sentinel.
    pub fn is_nan(&self) -> (r: bool)
        ensures
            r == (self.mantissa is NaN),
    {
        match self.mantissa {
            Mantissa::NaN => true,
            _ => false,
        }
    }

    /// Whether the mantissa is an infinity sentinel.
    pub fn is_infinite(&self) -> (r: bool)
        ensures
            r == (self.mantissa is Inf),
    {
        match self.mantissa {
            Mantissa::Inf(_) => true,
            _ => false,
        }
    }

    /// The mantissa.
    pub fn mantissa(&self) -> (r: Mantissa)
        ensures
            r == self.mantissa,
    {
        self.mantissa
    }

    /// The exponent (cloned, since a nested exponent owns a whole value).
    pub fn exponent(&self) -> (r: Exponent)
        ensures
            r == self.exponent,
    {
        clone_exponent(&self.exponent)
    }

    /// Zero test, as a spec predicate.
    pub open spec fn spec_is_zero(&self) -> bool {
        self.mantissa == Mantissa::Units(0i64)
    }

    /// Finiteness, as a spec predicate.
    pub open spec fn spec_is_finite(&self) -> bool {
        self.mantissa is Units
    }
}

/// Deep copy of a value (a nested exponent owns its box, so this recurses).
pub fn clone_big(v: &BigFloat) -> (r: BigFloat)
    ensures
        r == *v,
    decreases *v,
{
    BigFloat { mantissa: v.mantissa, exponent: clone_exponent(&v.exponent) }
}

/// Deep copy of an exponent.
pub fn clone_exponent(e: &Exponent) -> (r: Exponent)
    ensures
        r == *e,
    decreases *e,
{
    match e {
        Exponent::Plain(p) => Exponent::Plain(*p),
        Exponent::Nested(b) => Exponent::Nested(Box::new(clone_big(&**b))),
    }
}

impl Clone for BigFloat {
    /// A clone is equal to the original.
    fn clone(&self) -> (r: BigFloat)
        ensures
            r == *self,
    {
        clone_big(self)
    }
}

impl Clone for Exponent {
    /// A clone is equal to the original.
    fn clone(&self) -> (r: Exponent)
        ensures
            r == *self,
    {
        clone_exponent(self)
    }
}

impl Default for BigFloat {
    /// The default value is zero.
    fn default() -> (r: BigFloat)
        ensures
            r == spec_zero(),
    {
        BigFloat::zero()
    }
}

} // verus!
