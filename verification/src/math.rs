//! The transcendental family: `ln`, `log10`, `exp`, `pow`, `powi`, `sqrt`.
//!
//! `powi` is exact binary exponentiation over this library's arithmetic.
//! `log10` is exact in its exponent part — `log10(m × 10^e) = e + log10 m` —
//! and computes the fractional `log10 m` by the classic digit-extraction
//! algorithm (raise to the tenth power, extract the overflowed digit), run
//! at a guard scale of `10^18`; the algorithm is the specification.
//! `exp` is a deliberately coarse approximation, not a general
//! big-exponential algorithm: an operand with a very negative exponent
//! gives one, a very large exponent gives infinity, and in between the
//! result is `10^(x · log10 e)`, the fractional power of ten found by
//! inverting the same digit-extraction logarithm. `pow` is
//! `exp(b · ln a)` with the native-float special-case table for non-finite
//! operands; `sqrt` is `pow(1/2)`.

use vstd::prelude::*;

use crate::arithmetic::spec_add;
use crate::arithmetic::spec_div;
use crate::arithmetic::spec_mul;
use crate::bigfloat::BigFloat;
use crate::bigfloat::Exponent;
use crate::bigfloat::Mantissa;
use crate::bigfloat::SCALE;
use crate::bigfloat::TEN_SCALE;
use crate::bigfloat::clone_big;
use crate::bigfloat::finite_plain;
use crate::bigfloat::iabs;
use crate::bigfloat::pow10;
use crate::bigfloat::pow10_vals;
use crate::bigfloat::spec_from_int;
use crate::bigfloat::spec_zero;
use crate::bigfloat::wf;

verus! {

/// The value one.
pub open spec fn one_val() -> BigFloat {
    finite_plain(SCALE as int, 0)
}

/// The state of square-and-multiply exponentiation: what it will fold the
/// accumulated result and base into, given the remaining exponent bits.
pub open spec fn powi_loop(result: BigFloat, base: BigFloat, e: nat) -> BigFloat
    decreases e,
{
    if e == 0 {
        result
    } else {
        powi_loop(
            if e % 2 == 1 {
                spec_mul(result, base)
            } else {
                result
            },
            spec_mul(base, base),
            e / 2,
        )
    }
}

/// Integer power: one for exponent zero, the value itself for one,
/// binary exponentiation for larger exponents, and the reciprocal of the
/// positive power for negative exponents.
pub open spec fn spec_powi(v: BigFloat, n: int) -> BigFloat {
    if n == 0 {
        one_val()
    } else if n == 1 {
        v
    } else if n < 0 {
        spec_div(one_val(), powi_loop(one_val(), v, (-n) as nat))
    } else {
        powi_loop(one_val(), v, n as nat)
    }
}

impl BigFloat {
    /// Integer power by binary exponentiation; `n = 0` gives one, negative
    /// `n` the reciprocal of the positive power.
    pub fn powi(&self, n: i32) -> (r: BigFloat)
        requires
            wf(*self),
            n > i32::MIN,
        ensures
            r == spec_powi(*self, n as int),
            wf(r),
    {
        if n == 0 {
            return BigFloat::one();
        }
        if n == 1 {
            return clone_big(self);
        }
        let neg: bool = n < 0;
        let mut e: u32 = if neg {
            (-n) as u32
        } else {
            n as u32
        };
        let mut result = BigFloat::one();
        let mut base = clone_big(self);
        proof {
            assert(powi_loop(result, base, e as nat) == powi_loop(
                one_val(),
                *self,
                (if neg {
                    -(n as int)
                } else {
                    n as int
                }) as nat,
            ));
        }
        while e > 0
            invariant
                wf(result),
                wf(base),
                powi_loop(result, base, e as nat) == powi_loop(
                    one_val(),
                    *self,
                    (if neg {
                        -(n as int)
                    } else {
                        n as int
                    }) as nat,
                ),
            decreases e,
        {
            if e % 2 == 1 {
                result = result.mul(&base);
            }
            base = base.mul(&base);
            e = e / 2;
        }
        if neg {
            let one = BigFloat::one();
            one.div(&result)
        } else {
            result
        }
    }
}

/// The kernel guard scale: fractional logarithms are extracted at 18
/// fractional digits before rounding back to the mantissa's 14.
pub const GS: i128 = 1_000_000_000_000_000_000;

/// One renormalizing squaring step of the logarithm kernel: square a count
/// in `[GS, 10·GS)` and pull out the overflowed digit.
pub open spec fn ksq(x: int) -> (int, int) {
    let y = (x * x) / (GS as int);
    if y >= 10 * GS {
        (y / 10, 1)
    } else {
        (y, 0)
    }
}

/// One digit of the fractional logarithm: raise to the tenth power through
/// three squarings and one multiplication, collecting the overflowed
/// decimal digits.
pub open spec fn kstep(x: int) -> (int, int) {
    let (y1, c1) = ksq(x);
    let (y2, c2) = ksq(y1);
    let (y3, c3) = ksq(y2);
    let m = (y3 * y1) / (GS as int);
    let last = if m >= 10 * GS {
        (m / 10, 1int)
    } else {
        (m, 0int)
    };
    (last.0, 5 * c1 + 2 * c2 + c3 + last.1)
}

/// Fold `k` digit-extraction steps into an accumulated fixed-point
/// logarithm.
pub open spec fn l10_iter(x: int, k: nat, acc: int) -> int
    decreases k,
{
    if k == 0 {
        acc
    } else {
        let (x1, d) = kstep(x);
        l10_iter(x1, (k - 1) as nat, acc * 10 + d)
    }
}

/// The fractional decimal logarithm of a banded mantissa unit count, in
/// units of `10^-14`, as the digit-extraction algorithm defines it.
pub open spec fn log10_frac(u: int) -> int {
    l10_iter(u * 10000, 14, 0)
}

/// Squaring a count in the kernel band stays in the band (after the digit
/// pull) and the digit is zero or one.
proof fn lemma_ksq_band(x: int)
    requires
        GS <= x < 10 * GS,
    ensures
        GS <= ksq(x).0 < 10 * GS,
        0 <= ksq(x).1 <= 1,
{
    let g: int = GS as int;
    assert(x * x >= g * g && x * x <= 100 * g * g - 1) by (nonlinear_arith)
        requires
            GS <= x < 10 * GS,
            g == GS as int,
    ;
    assert((g * g) / g == g) by {
        vstd::arithmetic::div_mod::lemma_div_multiples_vanish(g, g);
    }
    assert((100 * g * g - 1) / g == 100 * g - 1) by {
        assert(100 * g * g - 1 == (100 * g - 1) * g + (g - 1)) by (nonlinear_arith);
        vstd::arithmetic::div_mod::lemma_fundamental_div_mod_converse(
            100 * g * g - 1,
            g,
            100 * g - 1,
            g - 1,
        );
    }
    vstd::arithmetic::div_mod::lemma_div_is_ordered(g * g, x * x, g);
    vstd::arithmetic::div_mod::lemma_div_is_ordered(x * x, 100 * g * g - 1, g);
    let y = (x * x) / g;
    if y >= 10 * g {
        vstd::arithmetic::div_mod::lemma_div_is_ordered(10 * g, y, 10);
        vstd::arithmetic::div_mod::lemma_div_is_ordered(y, 100 * g - 1, 10);
        assert((10 * g) / 10 == g) by {
            vstd::arithmetic::div_mod::lemma_div_multiples_vanish(g, 10);
        }
        assert((100 * g - 1) / 10 == 10 * g - 1) by {
            assert(100 * g - 1 == (10 * g - 1) * 10 + 9);
            vstd::arithmetic::div_mod::lemma_fundamental_div_mod_converse(
                100 * g - 1,
                10,
                10 * g - 1,
                9,
            );
        }
    }
}

/// A kernel multiplication of two banded counts stays in the band after
/// the digit pull.
proof fn lemma_kmul_band(p: int, q: int)
    requires
        GS <= p < 10 * GS,
        GS <= q < 10 * GS,
    ensures
        ({
            let m = (p * q) / (GS as int);
            &&& GS <= m < 100 * GS
            &&& (m >= 10 * GS ==> GS <= m / 10 < 10 * GS)
        }),
{
    let g: int = GS as int;
    assert(p * q >= g * g && p * q <= 100 * g * g - 1) by (nonlinear_arith)
        requires
            GS <= p < 10 * GS,
            GS <= q < 10 * GS,
            g == GS as int,
    ;
    assert((g * g) / g == g) by {
        vstd::arithmetic::div_mod::lemma_div_multiples_vanish(g, g);
    }
    assert((100 * g * g - 1) / g == 100 * g - 1) by {
        assert(100 * g * g - 1 == (100 * g - 1) * g + (g - 1)) by (nonlinear_arith);
        vstd::arithmetic::div_mod::lemma_fundamental_div_mod_converse(
            100 * g * g - 1,
            g,
            100 * g - 1,
            g - 1,
        );
    }
    vstd::arithmetic::div_mod::lemma_div_is_ordered(g * g, p * q, g);
    vstd::arithmetic::div_mod::lemma_div_is_ordered(p * q, 100 * g * g - 1, g);
    let m = (p * q) / g;
    if m >= 10 * g {
        vstd::arithmetic::div_mod::lemma_div_is_ordered(10 * g, m, 10);
        vstd::arithmetic::div_mod::lemma_div_is_ordered(m, 100 * g - 1, 10);
        assert((10 * g) / 10 == g) by {
            vstd::arithmetic::div_mod::lemma_div_multiples_vanish(g, 10);
        }
        assert((100 * g - 1) / 10 == 10 * g - 1) by {
            assert(100 * g - 1 == (10 * g - 1) * 10 + 9);
            vstd::arithmetic::div_mod::lemma_fundamental_div_mod_converse(
                100 * g - 1,
                10,
                10 * g - 1,
                9,
            );
        }
    }
}

/// A digit-extraction step stays in the band and yields a decimal digit.
proof fn lemma_kstep_band(x: int)
    requires
        GS <= x < 10 * GS,
    ensures
        GS <= kstep(x).0 < 10 * GS,
        0 <= kstep(x).1 <= 9,
{
    lemma_ksq_band(x);
    let (y1, c1) = ksq(x);
    lemma_ksq_band(y1);
    let (y2, c2) = ksq(y1);
    lemma_ksq_band(y2);
    let (y3, c3) = ksq(y2);
    lemma_kmul_band(y3, y1);
}

/// One exec squaring step of the kernel.
fn ksq_exec(x: u128) -> (r: (u128, u64))
    requires
        GS <= (x as int) < 10 * GS,
    ensures
        (r.0 as int, r.1 as int) == ksq(x as int),
        GS <= (r.0 as int) < 10 * GS,
        r.1 <= 1,
{
    proof {
        lemma_ksq_band(x as int);
        let g: int = GS as int;
        assert(x * x <= 100 * g * g - 1) by (nonlinear_arith)
            requires
                GS <= (x as int) && (x as int) < 10 * GS,
                g == GS as int,
        ;
    }
    let y: u128 = (x * x) / (GS as u128);
    if y >= 10 * (GS as u128) {
        (y / 10, 1)
    } else {
        (y, 0)
    }
}

/// One exec digit-extraction step.
fn kstep_exec(x: u128) -> (r: (u128, u64))
    requires
        GS <= (x as int) < 10 * GS,
    ensures
        (r.0 as int, r.1 as int) == kstep(x as int),
        GS <= (r.0 as int) < 10 * GS,
        r.1 <= 9,
{
    proof {
        lemma_kstep_band(x as int);
    }
    let (y1, c1) = ksq_exec(x);
    let (y2, c2) = ksq_exec(y1);
    let (y3, c3) = ksq_exec(y2);
    proof {
        lemma_kmul_band(y3 as int, y1 as int);
        let g: int = GS as int;
        assert(y3 * y1 <= 100 * g * g - 1) by (nonlinear_arith)
            requires
                GS <= (y3 as int) && (y3 as int) < 10 * GS,
                GS <= (y1 as int) && (y1 as int) < 10 * GS,
                g == GS as int,
        ;
    }
    let m: u128 = (y3 * y1) / (GS as u128);
    let (y4, c4): (u128, u64) = if m >= 10 * (GS as u128) {
        (m / 10, 1)
    } else {
        (m, 0)
    };
    (y4, 5 * c1 + 2 * c2 + c3 + c4)
}

/// The fractional decimal logarithm of a banded mantissa count,
/// executably: fourteen digit-extraction steps.
pub(crate) fn log10_frac_exec(u: i64) -> (r: i64)
    requires
        SCALE <= u < TEN_SCALE,
    ensures
        r as int == log10_frac(u as int),
        0 <= r < SCALE,
{
    let mut x: u128 = (u as u128) * 10000;
    let mut k: u64 = 14;
    let mut acc: u64 = 0;
    proof {
        pow10_vals();
        assert(l10_iter(x as int, k as nat, acc as int) == log10_frac(u as int));
        assert(pow10(0) == 1);
    }
    while k > 0
        invariant
            GS <= (x as int) < 10 * GS,
            k <= 14,
            (acc as int) < pow10((14 - k) as nat),
            l10_iter(x as int, k as nat, acc as int) == log10_frac(u as int),
        decreases k,
    {
        let (x1, d) = kstep_exec(x);
        proof {
            crate::bigfloat::lemma_pow10_monotone((14 - k) as nat, 14);
            pow10_vals();
            assert(pow10((14 - k + 1) as nat) == 10 * pow10((14 - k) as nat));
        }
        acc = acc * 10 + d;
        x = x1;
        k = k - 1;
    }
    proof {
        pow10_vals();
        assert(l10_iter(x as int, 0, acc as int) == acc as int);
    }
    acc as i64
}

/// The binary search inverting the fractional logarithm.
pub open spec fn p10f_search(f: int, lo: int, hi: int) -> int
    decreases hi - lo,
{
    if lo >= hi {
        lo
    } else {
        let mid = lo + (hi - lo) / 2;
        if log10_frac(mid) >= f {
            p10f_search(f, lo, mid)
        } else {
            p10f_search(f, mid + 1, hi)
        }
    }
}

/// The fractional power of ten: the banded count the binary search selects
/// as `10^(f / SCALE)` — the boundary where the fractional logarithm first
/// reaches `f`.
pub open spec fn pow10_frac(f: int) -> int {
    p10f_search(f, SCALE as int, TEN_SCALE as int - 1)
}

/// `pow10_frac`, executably, with the boundary property the search
/// establishes.
pub(crate) fn pow10_frac_exec(f: i64) -> (r: i64)
    requires
        0 <= f < SCALE,
    ensures
        r as int == pow10_frac(f as int),
        SCALE <= r < TEN_SCALE,
        log10_frac(r as int) >= f || r == TEN_SCALE - 1,
        r == SCALE || log10_frac(r as int - 1) < f,
{
    let mut lo: i64 = SCALE;
    let mut hi: i64 = TEN_SCALE - 1;
    while lo < hi
        invariant
            SCALE <= lo <= hi <= TEN_SCALE - 1,
            0 <= f < SCALE,
            log10_frac(hi as int) >= f || hi == TEN_SCALE - 1,
            lo == SCALE || log10_frac(lo as int - 1) < f,
            p10f_search(f as int, lo as int, hi as int) == pow10_frac(f as int),
        decreases hi - lo,
    {
        let mid: i64 = lo + (hi - lo) / 2;
        let l = log10_frac_exec(mid);
        if l >= f {
            hi = mid;
        } else {
            lo = mid + 1;
        }
    }
    lo
}

/// `log10 e` at 18 fractional digits, rounded to nearest.
pub const L10E18: i128 = 434_294_481_903_251_828;

/// The integer part of `x · log10 e` for the finite operand with unit
/// count `u` at plain exponent `e` (the decimal exponent of `e^x`).
pub open spec fn exp_k(u: int, e: int) -> int {
    (u * L10E18) / pow10((32 - e) as nat)
}

/// The fractional part of `x · log10 e`, in units of `10^-14`.
pub open spec fn exp_f(u: int, e: int) -> int {
    (u * L10E18) / pow10((18 - e) as nat) - exp_k(u, e) * (SCALE as int)
}

/// The split of `x · log10 e` into integer and fractional parts is a
/// genuine split: the fraction lies in `[0, SCALE)` and the integer part
/// is small.
proof fn lemma_exp_split(u: int, e: int)
    requires
        SCALE <= iabs(u) < TEN_SCALE,
        -15 <= e <= 2,
    ensures
        0 <= exp_f(u, e) < SCALE,
        -500 <= exp_k(u, e) <= 500,
{
    pow10_vals();
    lemma_pow10_split(15, 15);
    assert(pow10(30) == 1_000_000_000_000_000_000_000_000_000_000) by (nonlinear_arith)
        requires
            pow10(30) == pow10(15) * pow10(15),
            pow10(15) == 1_000_000_000_000_000,
    ;
    let t = u * L10E18;
    let dd = pow10((32 - e) as nat);
    let d14 = pow10((18 - e) as nat);
    let s: int = SCALE as int;
    assert(iabs(t) < 500 * pow10(30)) by (nonlinear_arith)
        requires
            iabs(u) < TEN_SCALE,
            t == u * L10E18,
            L10E18 < 500_000_000_000_000_000,
            TEN_SCALE == 1_000_000_000_000_000,
            pow10(30) == 1_000_000_000_000_000_000_000_000_000_000,
    ;
    assert(dd >= pow10(30)) by {
        crate::bigfloat::lemma_pow10_monotone(30, (32 - e) as nat);
    }
    assert(dd == d14 * s) by {
        lemma_pow10_split((18 - e) as nat, 14);
    }
    // bound the integer part
    assert(t <= 500 * dd && t >= -500 * dd) by (nonlinear_arith)
        requires
            iabs(t) < 500 * pow10(30),
            dd >= pow10(30),
            pow10(30) > 0,
    ;
    assert((500 * dd) / dd == 500) by {
        vstd::arithmetic::div_mod::lemma_div_multiples_vanish(500, dd);
    }
    assert((-500 * dd) / dd == -500) by {
        vstd::arithmetic::div_mod::lemma_div_multiples_vanish(-500, dd);
    }
    vstd::arithmetic::div_mod::lemma_div_is_ordered(t, 500 * dd, dd);
    vstd::arithmetic::div_mod::lemma_div_is_ordered(-500 * dd, t, dd);
    // the fraction: with t = k·dd + r, the 14-digit quotient is k·SCALE
    // plus the fraction
    let k = t / dd;
    let r = t % dd;
    vstd::arithmetic::div_mod::lemma_fundamental_div_mod(t, dd);
    assert(0 <= r < dd) by {
        vstd::arithmetic::div_mod::lemma_mod_bound(t, dd);
    }
    let q2 = r / d14;
    let r2 = r % d14;
    vstd::arithmetic::div_mod::lemma_fundamental_div_mod(r, d14);
    assert(0 <= r2 < d14) by {
        vstd::arithmetic::div_mod::lemma_mod_bound(r, d14);
    }
    assert(0 <= q2 < s) by {
        assert(r <= dd - 1);
        assert((d14 * s - 1) / d14 == s - 1) by {
            assert(d14 * s - 1 == (s - 1) * d14 + (d14 - 1)) by (nonlinear_arith);
            vstd::arithmetic::div_mod::lemma_fundamental_div_mod_converse(
                d14 * s - 1,
                d14,
                s - 1,
                d14 - 1,
            );
        }
        vstd::arithmetic::div_mod::lemma_div_is_ordered(0, r, d14);
        vstd::arithmetic::div_mod::lemma_div_is_ordered(r, d14 * s - 1, d14);
    }
    assert(t / d14 == k * s + q2) by {
        assert(t == (k * s + q2) * d14 + r2) by (nonlinear_arith)
            requires
                t == dd * k + r,
                dd == d14 * s,
                r == d14 * q2 + r2,
        ;
        vstd::arithmetic::div_mod::lemma_fundamental_div_mod_converse(t, d14, k * s + q2, r2);
    }
}

/// `pow10` splits over a sum of exponents.
pub proof fn lemma_pow10_split(a: nat, b: nat)
    ensures
        pow10(a + b) == pow10(a) * pow10(b),
    decreases b,
{
    if b == 0 {
        assert(pow10(a + 0) == pow10(a) * 1) by {
            assert(pow10(0) == 1);
        }
    } else {
        lemma_pow10_split(a, (b - 1) as nat);
        assert(pow10(a + b) == 10 * pow10((a + b - 1) as nat));
        assert(pow10(a) * pow10(b) == pow10(a) * (10 * pow10((b - 1) as nat)));
        assert(pow10(a) * (10 * pow10((b - 1) as nat)) == 10 * (pow10(a) * pow10(
            (b - 1) as nat,
        ))) by (nonlinear_arith);
    }
}

/// Euclidean (flooring) division on `i128`.
fn floordiv_i128(t: i128, d: i128) -> (r: i128)
    requires
        d > 0,
        iabs(t as int) < 100_000_000_000_000_000_000_000_000_000_000_000i128 as int,
        d <= 10_000_000_000_000_000_000_000_000_000_000_000_000i128,
    ensures
        r as int == (t as int) / (d as int),
{
    if t >= 0 {
        t / d
    } else {
        let m = -t;
        let q = (m + d - 1) / d;
        proof {
            let mi = m as int;
            let di = d as int;
            let qq = mi / di;
            let rr = mi % di;
            vstd::arithmetic::div_mod::lemma_fundamental_div_mod(mi, di);
            vstd::arithmetic::div_mod::lemma_mod_bound(mi, di);
            if rr == 0 {
                assert((mi + di - 1) / di == qq) by {
                    vstd::arithmetic::div_mod::lemma_fundamental_div_mod_converse(
                        mi + di - 1,
                        di,
                        qq,
                        di - 1,
                    );
                }
                assert((-mi) / di == -qq) by {
                    assert(-mi == (-qq) * di + 0) by (nonlinear_arith)
                        requires
                            mi == di * qq,
                    ;
                    vstd::arithmetic::div_mod::lemma_fundamental_div_mod_converse(
                        -mi,
                        di,
                        -qq,
                        0,
                    );
                }
            } else {
                assert((mi + di - 1) / di == qq + 1) by {
                    assert(mi + di - 1 == (qq + 1) * di + (rr - 1)) by (nonlinear_arith)
                        requires
                            mi == di * qq + rr,
                    ;
                    vstd::arithmetic::div_mod::lemma_fundamental_div_mod_converse(
                        mi + di - 1,
                        di,
                        qq + 1,
                        rr - 1,
                    );
                }
                assert((-mi) / di == -(qq + 1)) by {
                    assert(-mi == (-(qq + 1)) * di + (di - rr)) by (nonlinear_arith)
                        requires
                            mi == di * qq + rr,
                    ;
                    vstd::arithmetic::div_mod::lemma_fundamental_div_mod_converse(
                        -mi,
                        di,
                        -(qq + 1),
                        di - rr,
                    );
                }
            }
        }
        -q
    }
}

/// `10^k` as a `u128`, for the wide kernel divisors.
fn pow10_exec_u128(k: u64) -> (r: u128)
    requires
        k <= 33,
    ensures
        r as int == pow10(k as nat),
        r >= 1,
    decreases k,
{
    proof {
        reveal_with_fuel(pow10, 34);
        crate::bigfloat::lemma_pow10_monotone(k as nat, 33);
    }
    if k == 0 {
        1
    } else {
        let p = pow10_exec_u128(k - 1);
        10 * p
    }
}

/// `e^x` for the moderate band: the operand is finite, non-zero, with a
/// plain exponent in `-15..=2`; the result is the fractional power of ten
/// at the split's integer decimal exponent.
pub open spec fn spec_exp_moderate(u: int, e: int) -> BigFloat {
    finite_plain(pow10_frac(exp_f(u, e)), exp_k(u, e))
}

/// `spec_exp_moderate`, executably.
fn exp_moderate(u: i64, e: i64) -> (r: BigFloat)
    requires
        SCALE <= iabs(u as int) < TEN_SCALE,
        -15 <= e <= 2,
    ensures
        r == spec_exp_moderate(u as int, e as int),
        wf(r),
{
    proof {
        pow10_vals();
        lemma_pow10_split(15, 15);
        assert(pow10(30) == 1_000_000_000_000_000_000_000_000_000_000) by (nonlinear_arith)
            requires
                pow10(30) == pow10(15) * pow10(15),
                pow10(15) == 1_000_000_000_000_000,
        ;
        lemma_exp_split(u as int, e as int);
    }
    let t: i128 = (u as i128) * L10E18;
    proof {
        assert(iabs(t as int) < 500 * pow10(30)) by (nonlinear_arith)
            requires
                iabs(u as int) < TEN_SCALE,
                t == (u as int) * (L10E18 as int),
                (L10E18 as int) < 500_000_000_000_000_000,
                TEN_SCALE == 1_000_000_000_000_000,
                pow10(30) == 1_000_000_000_000_000_000_000_000_000_000,
        ;
    }
    proof {
        lemma_pow10_split(30, 3);
        assert(pow10(33) == 1000 * pow10(30)) by (nonlinear_arith)
            requires
                pow10(33) == pow10(30) * pow10(3),
                pow10(3) == 1000,
        ;
    }
    let k: i128 = if e >= 0 {
        let dd = pow10_exec_u128((32 - e) as u64);
        proof {
            crate::bigfloat::lemma_pow10_monotone((32 - e) as nat, 33);
        }
        floordiv_i128(t, dd as i128)
    } else {
        proof {
            crate::bigfloat::lemma_pow10_monotone(33, (32 - e) as nat);
            if t >= 0 {
                vstd::arithmetic::div_mod::lemma_basic_div(t as int, pow10((32 - e) as nat));
            } else {
                let dd = pow10((32 - e) as nat);
                assert((t as int) / dd == -1) by {
                    vstd::arithmetic::div_mod::lemma_fundamental_div_mod_converse(
                        t as int,
                        dd,
                        -1,
                        dd + t,
                    );
                }
            }
        }
        if t >= 0 {
            0
        } else {
            -1
        }
    };
    let d14 = pow10_exec_u128((18 - e) as u64);
    proof {
        crate::bigfloat::lemma_pow10_monotone((18 - e) as nat, 33);
    }
    let q = floordiv_i128(t, d14 as i128);
    let f: i128 = q - k * (SCALE as i128);
    proof {
        assert(f as int == exp_f(u as int, e as int));
    }
    let y = pow10_frac_exec(f as i64);
    BigFloat { mantissa: Mantissa::Units(y), exponent: Exponent::Plain(k as i64) }
}

/// The exponent of a value as a value of its own: a plain exponent
/// converted exactly (up to 15 significant digits), a nested exponent as
/// it stands.
pub open spec fn big_exp_value(v: BigFloat) -> BigFloat {
    match v.exponent {
        Exponent::Plain(p) => spec_from_int(p as int),
        Exponent::Nested(b) => *b,
    }
}

/// `ln 10` at 14 fractional digits, rounded to nearest.
pub const LN10_UNITS: i64 = 230_258_509_299_405;

/// The value `ln 10`.
pub open spec fn ln10_val() -> BigFloat {
    finite_plain(LN10_UNITS as int, 0)
}

/// The value one half.
pub open spec fn half_val() -> BigFloat {
    finite_plain(5 * (SCALE as int), -1)
}

/// The decimal logarithm: minus infinity for zero, NaN for a negative or
/// NaN operand, infinity for positive infinity, and otherwise exactly
/// `e + log10 m` — the exponent as a value plus the fractional logarithm
/// of the mantissa.
pub open spec fn spec_log10(v: BigFloat) -> BigFloat {
    match v.mantissa {
        Mantissa::NaN => crate::arithmetic::sentinel(Mantissa::NaN),
        Mantissa::Inf(s) => {
            if s {
                crate::arithmetic::sentinel(Mantissa::NaN)
            } else {
                crate::arithmetic::sentinel(Mantissa::Inf(false))
            }
        },
        Mantissa::Units(u) => {
            if u == 0 {
                crate::arithmetic::sentinel(Mantissa::Inf(true))
            } else if u < 0 {
                crate::arithmetic::sentinel(Mantissa::NaN)
            } else {
                spec_add(big_exp_value(v), crate::bigfloat::spec_norm(log10_frac(u as int), 0))
            }
        },
    }
}

/// The natural logarithm: the decimal logarithm scaled by `ln 10`
/// (`ln(m·10^e) = (e + log10 m) · ln 10`), with the same edge cases.
pub open spec fn spec_ln(v: BigFloat) -> BigFloat {
    match v.mantissa {
        Mantissa::NaN => crate::arithmetic::sentinel(Mantissa::NaN),
        Mantissa::Inf(s) => {
            if s {
                crate::arithmetic::sentinel(Mantissa::NaN)
            } else {
                crate::arithmetic::sentinel(Mantissa::Inf(false))
            }
        },
        Mantissa::Units(u) => {
            if u == 0 {
                crate::arithmetic::sentinel(Mantissa::Inf(true))
            } else if u < 0 {
                crate::arithmetic::sentinel(Mantissa::NaN)
            } else {
                spec_mul(spec_log10(v), ln10_val())
            }
        },
    }
}

/// The exponential, by the magnitude of the operand's own exponent: a very
/// negative exponent (below `-15`, or a negative nested one) gives one, a
/// large exponent (`3` and up, or a positive nested one) gives infinity —
/// a deliberately coarse heuristic — and the moderate band computes
/// `10^(x · log10 e)` exactly as the split defines it.
pub open spec fn spec_exp(v: BigFloat) -> BigFloat {
    match v.mantissa {
        Mantissa::NaN => crate::arithmetic::sentinel(Mantissa::NaN),
        Mantissa::Inf(s) => {
            if s {
                spec_zero()
            } else {
                crate::arithmetic::sentinel(Mantissa::Inf(false))
            }
        },
        Mantissa::Units(u) => {
            if u == 0 {
                one_val()
            } else {
                match v.exponent {
                    Exponent::Nested(b) => {
                        if crate::bigfloat::is_strictly_positive(*b) {
                            crate::arithmetic::sentinel(Mantissa::Inf(false))
                        } else {
                            one_val()
                        }
                    },
                    Exponent::Plain(e) => {
                        if e <= -16 {
                            one_val()
                        } else if e >= 3 {
                            crate::arithmetic::sentinel(Mantissa::Inf(false))
                        } else {
                            spec_exp_moderate(u as int, e as int)
                        }
                    },
                }
            }
        },
    }
}

/// How the magnitude of a finite non-zero value compares against one.
pub open spec fn abs_cmp_one(v: BigFloat) -> core::cmp::Ordering {
    match v.exponent {
        Exponent::Plain(e) => {
            if e > 0 {
                core::cmp::Ordering::Greater
            } else if e < 0 {
                core::cmp::Ordering::Less
            } else if iabs(crate::arithmetic::units_of(v)) == SCALE {
                core::cmp::Ordering::Equal
            } else {
                core::cmp::Ordering::Greater
            }
        },
        Exponent::Nested(b) => {
            if crate::bigfloat::is_strictly_positive(*b) {
                core::cmp::Ordering::Greater
            } else {
                core::cmp::Ordering::Less
            }
        },
    }
}

/// Whether a finite value is an odd integer (what decides the sign of a
/// negative-infinity base raised to it).
pub open spec fn is_odd_integer(v: BigFloat) -> bool {
    match v.exponent {
        Exponent::Plain(e) => {
            if e > 14 {
                false
            } else {
                let d = pow10((14 - e) as nat);
                let mag = iabs(crate::arithmetic::units_of(v));
                mag % d == 0 && (mag / d) % 2 == 1
            }
        },
        Exponent::Nested(_) => false,
    }
}

/// The native-float power table for a non-finite operand (neither operand
/// zero): NaN propagates except that one to any power is one; an infinite
/// power compares the base's magnitude against one; an infinite base
/// follows the sign rules, odd integer powers keeping the negative sign.
pub open spec fn pow_nf(a: BigFloat, b: BigFloat) -> BigFloat {
    if b.mantissa is NaN {
        if a == one_val() {
            one_val()
        } else {
            crate::arithmetic::sentinel(Mantissa::NaN)
        }
    } else if a.mantissa is NaN {
        crate::arithmetic::sentinel(Mantissa::NaN)
    } else {
        match b.mantissa {
            Mantissa::Inf(bneg) => {
                let c = if a.mantissa is Inf {
                    core::cmp::Ordering::Greater
                } else {
                    abs_cmp_one(a)
                };
                if c == core::cmp::Ordering::Equal {
                    one_val()
                } else if (c == core::cmp::Ordering::Greater) != bneg {
                    crate::arithmetic::sentinel(Mantissa::Inf(false))
                } else {
                    spec_zero()
                }
            },
            _ => {
                // a is infinite, b finite non-zero
                let aneg = a.mantissa == Mantissa::Inf(true);
                let bneg = crate::arithmetic::units_of(b) < 0;
                if !bneg {
                    crate::arithmetic::sentinel(Mantissa::Inf(aneg && is_odd_integer(b)))
                } else {
                    spec_zero()
                }
            },
        }
    }
}

/// The general power `a^b`: `0^0` is NaN, zero to any other power is zero,
/// any base to the zeroth power is one, non-finite operands resolve
/// through the native-float table, and the finite case is
/// `exp(b · ln a)` (so a negative base gives NaN through the logarithm).
pub open spec fn spec_pow(a: BigFloat, b: BigFloat) -> BigFloat {
    if a.spec_is_zero() {
        if b.spec_is_zero() {
            crate::arithmetic::sentinel(Mantissa::NaN)
        } else {
            spec_zero()
        }
    } else if b.spec_is_zero() {
        one_val()
    } else if !a.spec_is_finite() || !b.spec_is_finite() {
        pow_nf(a, b)
    } else {
        spec_exp(spec_mul(spec_ln(a), b))
    }
}

/// The square root: NaN for a negative operand, the operand itself for
/// zero, NaN and positive infinity, and `pow(1/2)` otherwise.
pub open spec fn spec_sqrt(v: BigFloat) -> BigFloat {
    if crate::arithmetic::mantissa_negative(v.mantissa) && !v.spec_is_zero() {
        crate::arithmetic::sentinel(Mantissa::NaN)
    } else if v.spec_is_zero() {
        spec_zero()
    } else if !v.spec_is_finite() {
        crate::arithmetic::sentinel(v.mantissa)
    } else {
        spec_pow(v, half_val())
    }
}

impl BigFloat {
    /// The decimal logarithm (see [`spec_log10`]): exactly the exponent,
    /// as a value, plus the fractional logarithm of the mantissa.
    pub fn log10(&self) -> (r: BigFloat)
        requires
            wf(*self),
        ensures
            r == spec_log10(*self),
            wf(r),
    {
        proof {
            pow10_vals();
        }
        match self.mantissa {
            Mantissa::NaN => BigFloat::nan(),
            Mantissa::Inf(s) => {
                if s {
                    BigFloat::nan()
                } else {
                    BigFloat::infinity()
                }
            },
            Mantissa::Units(u) => {
                if u == 0 {
                    BigFloat::neg_infinity()
                } else if u < 0 {
                    BigFloat::nan()
                } else {
                    let ev = match &self.exponent {
                        Exponent::Plain(p) => crate::bigfloat::from_i128(*p as i128),
                        Exponent::Nested(b) => clone_big(&**b),
                    };
                    let f = log10_frac_exec(u);
                    let fv = crate::bigfloat::norm_at(f as i128, 0);
                    ev.add(&fv)
                }
            },
        }
    }

    /// The natural logarithm (see [`spec_ln`]): the decimal logarithm
    /// scaled by `ln 10`.
    pub fn ln(&self) -> (r: BigFloat)
        requires
            wf(*self),
        ensures
            r == spec_ln(*self),
            wf(r),
    {
        match self.mantissa {
            Mantissa::NaN => BigFloat::nan(),
            Mantissa::Inf(s) => {
                if s {
                    BigFloat::nan()
                } else {
                    BigFloat::infinity()
                }
            },
            Mantissa::Units(u) => {
                if u == 0 {
                    BigFloat::neg_infinity()
                } else if u < 0 {
                    BigFloat::nan()
                } else {
                    let lg = self.log10();
                    let ln10 = BigFloat {
                        mantissa: Mantissa::Units(LN10_UNITS),
                        exponent: Exponent::Plain(0),
                    };
                    lg.mul(&ln10)
                }
            },
        }
    }

    /// The exponential (see [`spec_exp`]): one for operands with very
    /// negative exponents, infinity for very large ones, and the exact
    /// fractional power of ten in between. A documented approximation,
    /// not a general big-exponential algorithm.
    pub fn exp(&self) -> (r: BigFloat)
        requires
            wf(*self),
        ensures
            r == spec_exp(*self),
            wf(r),
    {
        match self.mantissa {
            Mantissa::NaN => BigFloat::nan(),
            Mantissa::Inf(s) => {
                if s {
                    BigFloat::zero()
                } else {
                    BigFloat::infinity()
                }
            },
            Mantissa::Units(u) => {
                if u == 0 {
                    BigFloat::one()
                } else {
                    match &self.exponent {
                        Exponent::Nested(b) => {
                            if b.is_strictly_positive() {
                                BigFloat::infinity()
                            } else {
                                BigFloat::one()
                            }
                        },
                        Exponent::Plain(e) => {
                            let e: i64 = *e;
                            if e <= -16 {
                                BigFloat::one()
                            } else if e >= 3 {
                                BigFloat::infinity()
                            } else {
                                exp_moderate(u, e)
                            }
                        },
                    }
                }
            },
        }
    }

    /// The general power `a^b` via `exp(b · ln a)` (see [`spec_pow`]).
    pub fn pow(&self, exponent: &BigFloat) -> (r: BigFloat)
        requires
            wf(*self),
            wf(*exponent),
        ensures
            r == spec_pow(*self, *exponent),
            wf(r),
    {
        if self.is_zero() {
            if exponent.is_zero() {
                return BigFloat::nan();
            }
            return BigFloat::zero();
        }
        if exponent.is_zero() {
            return BigFloat::one();
        }
        if !self.is_finite() || !exponent.is_finite() {
            return pow_nf_exec(self, exponent);
        }
        let ln_self = self.ln();
        let product = ln_self.mul(exponent);
        product.exp()
    }

    /// The square root as `pow(1/2)`; a negative operand gives NaN (see
    /// [`spec_sqrt`]).
    pub fn sqrt(&self) -> (r: BigFloat)
        requires
            wf(*self),
        ensures
            r == spec_sqrt(*self),
            wf(r),
    {
        let neg = match self.mantissa {
            Mantissa::NaN => false,
            Mantissa::Inf(s) => s,
            Mantissa::Units(u) => u < 0,
        };
        if neg && !self.is_zero() {
            return BigFloat::nan();
        }
        if self.is_zero() {
            return BigFloat::zero();
        }
        if !self.is_finite() {
            return BigFloat {
                mantissa: self.mantissa,
                exponent: Exponent::Plain(0),
            };
        }
        let half = BigFloat {
            mantissa: Mantissa::Units(5 * SCALE),
            exponent: Exponent::Plain(-1),
        };
        self.pow(&half)
    }
}

/// `pow_nf`, executably.
fn pow_nf_exec(a: &BigFloat, b: &BigFloat) -> (r: BigFloat)
    requires
        wf(*a),
        wf(*b),
        !a.spec_is_zero(),
        !b.spec_is_zero(),
        !a.spec_is_finite() || !b.spec_is_finite(),
    ensures
        r == pow_nf(*a, *b),
        wf(r),
{
    proof {
        pow10_vals();
    }
    if matches!(b.mantissa, Mantissa::NaN) {
        let is_one = match (&a.mantissa, &a.exponent) {
            (Mantissa::Units(u), Exponent::Plain(e)) => *u == SCALE && *e == 0,
            _ => false,
        };
        if is_one {
            return BigFloat::one();
        }
        return BigFloat::nan();
    }
    if matches!(a.mantissa, Mantissa::NaN) {
        return BigFloat::nan();
    }
    match b.mantissa {
        Mantissa::Inf(bneg) => {
            let c: core::cmp::Ordering = if matches!(a.mantissa, Mantissa::Inf(_)) {
                core::cmp::Ordering::Greater
            } else {
                abs_cmp_one_exec(a)
            };
            if matches!(c, core::cmp::Ordering::Equal) {
                BigFloat::one()
            } else if matches!(c, core::cmp::Ordering::Greater) != bneg {
                BigFloat::infinity()
            } else {
                BigFloat::zero()
            }
        },
        _ => {
            let aneg = matches!(a.mantissa, Mantissa::Inf(true));
            let bneg = crate::arithmetic::units_of_exec(b) < 0;
            if !bneg {
                let odd = is_odd_integer_exec(b);
                BigFloat { mantissa: Mantissa::Inf(aneg && odd), exponent: Exponent::Plain(0) }
            } else {
                BigFloat::zero()
            }
        },
    }
}

/// `abs_cmp_one`, executably.
fn abs_cmp_one_exec(v: &BigFloat) -> (r: core::cmp::Ordering)
    requires
        wf(*v),
        v.spec_is_finite(),
    ensures
        r == abs_cmp_one(*v),
{
    match &v.exponent {
        Exponent::Plain(e) => {
            let e: i64 = *e;
            if e > 0 {
                core::cmp::Ordering::Greater
            } else if e < 0 {
                core::cmp::Ordering::Less
            } else {
                let u = crate::arithmetic::units_of_exec(v);
                let mag: i64 = if u < 0 {
                    -u
                } else {
                    u
                };
                if mag == SCALE {
                    core::cmp::Ordering::Equal
                } else {
                    core::cmp::Ordering::Greater
                }
            }
        },
        Exponent::Nested(b) => {
            if b.is_strictly_positive() {
                core::cmp::Ordering::Greater
            } else {
                core::cmp::Ordering::Less
            }
        },
    }
}

/// `is_odd_integer`, executably.
fn is_odd_integer_exec(v: &BigFloat) -> (r: bool)
    requires
        wf(*v),
        v.spec_is_finite(),
    ensures
        r == is_odd_integer(*v),
{
    proof {
        pow10_vals();
    }
    match &v.exponent {
        Exponent::Plain(e) => {
            let e: i64 = *e;
            if e > 14 {
                false
            } else if e < 0 {
                let u = crate::arithmetic::units_of_exec(v);
                let mag: u64 = if u < 0 {
                    (-u) as u64
                } else {
                    u as u64
                };
                proof {
                    crate::bigfloat::lemma_pow10_monotone(15, (14 - e) as nat);
                    if mag != 0 {
                        vstd::arithmetic::div_mod::lemma_small_mod(
                            mag as nat,
                            pow10((14 - e) as nat) as nat,
                        );
                    }
                }
                if mag == 0 {
                    proof {
                        vstd::arithmetic::div_mod::lemma_small_mod(
                            0,
                            pow10((14 - e) as nat) as nat,
                        );
                        vstd::arithmetic::div_mod::lemma_basic_div(0, pow10((14 - e) as nat));
                    }
                    false
                } else {
                    false
                }
            } else {
                let u = crate::arithmetic::units_of_exec(v);
                let mag: u64 = if u < 0 {
                    (-u) as u64
                } else {
                    u as u64
                };
                let d = crate::arithmetic::pow10_exec((14 - e) as u64);
                mag % d == 0 && (mag / d) % 2 == 1
            }
        },
        Exponent::Nested(_) => false,
    }
}

} // verus!
