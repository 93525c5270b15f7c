//! The round-trip law: parsing the text of a well-formed value
//! reconstructs the value exactly. The proof walks the parser through each
//! shape the formatter can produce.

use vstd::prelude::*;

use crate::bigfloat::BigFloat;
use crate::bigfloat::Exponent;
use crate::bigfloat::Mantissa;
use crate::bigfloat::SCALE;
use crate::bigfloat::TEN_SCALE;
use crate::bigfloat::iabs;
use crate::bigfloat::in_i64;
use crate::bigfloat::pow10;
use crate::bigfloat::pow10_vals;
use crate::bigfloat::wf;
use crate::convert::dec_parse;
use crate::convert::dec_seq;
use crate::convert::digit_char;
use crate::convert::digit_val;
use crate::convert::expanded_seq;
use crate::convert::find_e;
use crate::convert::find_times;
use crate::convert::int_parse;
use crate::convert::int_seq;
use crate::convert::is_digit;
use crate::convert::is_ws;
use crate::convert::mant_seq;
use crate::convert::padded_seq;
use crate::convert::scan_int;
use crate::convert::scan_mant;
use crate::convert::sign_seq;
use crate::convert::spec_parse;
use crate::convert::spec_parse_at;
use crate::convert::spec_text;
use crate::convert::stripped_seq;
use crate::convert::times_at;
use crate::convert::zeros_seq;

verus! {

/// A digit character is a digit, reads back as its value, and is none of
/// the grammar's structural characters.
proof fn lemma_digit_char(d: int)
    requires
        0 <= d <= 9,
    ensures
        is_digit(digit_char(d)),
        digit_val(digit_char(d)) == d,
        digit_char(d) != '.',
        digit_char(d) != '-',
        digit_char(d) != '+',
        digit_char(d) != 'e',
        digit_char(d) != 'E',
        digit_char(d) != ' ',
        digit_char(d) != ')',
        digit_char(d) != '∞',
        digit_char(d) != 'n',
        digit_char(d) != 'N',
        digit_char(d) != 'i',
        digit_char(d) != 'I',
        !is_ws(digit_char(d)),
        d >= 1 ==> digit_char(d) != '0',
{
}

/// Every character of a padded digit run is a digit.
proof fn lemma_padded_digits(f: int, k: nat)
    requires
        0 <= f,
    ensures
        padded_seq(f, k).len() == k,
        forall|j: int|
            0 <= j < k ==> is_digit(#[trigger] padded_seq(f, k)[j]) && !is_ws(padded_seq(f, k)[j])
                && padded_seq(f, k)[j] != 'e' && padded_seq(f, k)[j] != 'E' && padded_seq(f, k)[j]
                != ' ' && padded_seq(f, k)[j] != '.' && padded_seq(f, k)[j] != ')',
    decreases k,
{
    if k > 0 {
        lemma_padded_digits(f / 10, (k - 1) as nat);
        vstd::arithmetic::div_mod::lemma_mod_bound(f, 10);
        lemma_digit_char(f % 10);
        assert forall|j: int| 0 <= j < k implies is_digit(#[trigger] padded_seq(f, k)[j]) && !is_ws(
            padded_seq(f, k)[j],
        ) && padded_seq(f, k)[j] != 'e' && padded_seq(f, k)[j] != 'E' && padded_seq(f, k)[j] != ' '
            && padded_seq(f, k)[j] != '.' && padded_seq(f, k)[j] != ')' by {
            if j < k - 1 {
                assert(padded_seq(f, k)[j] == padded_seq(f / 10, (k - 1) as nat)[j]);
            } else {
                assert(padded_seq(f, k)[j] == digit_char(f % 10));
            }
        }
    }
}

/// The number of decimal digits of a non-negative integer.
pub open spec fn dc(n: int) -> nat
    decreases n,
{
    if n < 10 {
        1
    } else {
        1 + dc(n / 10)
    }
}

/// The count of trailing zero digits of `f` within a `k`-digit frame.
pub open spec fn zc(f: int, k: nat) -> nat
    decreases k,
{
    if k == 0 {
        0
    } else if f % 10 == 0 {
        1 + zc(f / 10, (k - 1) as nat)
    } else {
        0
    }
}

/// The digit-sequence form of an integer is its padded form at its digit
/// count, which brackets the integer between powers of ten.
proof fn lemma_dec_padded(n: int)
    requires
        0 <= n,
    ensures
        dec_seq(n) == padded_seq(n, dc(n)),
        n < pow10(dc(n)),
        n >= 1 ==> n >= pow10((dc(n) - 1) as nat),
        dc(n) >= 1,
    decreases n,
{
    pow10_vals();
    if n < 10 {
        assert(dec_seq(n) =~= padded_seq(n, 1)) by {
            assert(padded_seq(n, 1) == padded_seq(n / 10, 0) + seq![digit_char(n % 10)]);
            vstd::arithmetic::div_mod::lemma_small_mod(n as nat, 10);
        }
    } else {
        lemma_dec_padded(n / 10);
        assert(dec_seq(n) =~= padded_seq(n, dc(n))) by {
            assert(dec_seq(n) == dec_seq(n / 10) + seq![digit_char(n % 10)]);
            assert(padded_seq(n, dc(n)) == padded_seq(n / 10, (dc(n) - 1) as nat) + seq![
                digit_char(n % 10),
            ]);
        }
        assert(n < pow10(dc(n))) by {
            assert(pow10(dc(n)) == 10 * pow10(dc(n / 10)));
            assert(n < 10 * pow10(dc(n / 10))) by (nonlinear_arith)
                requires
                    n / 10 < pow10(dc(n / 10)),
                    n >= 10,
                    n < 10 * (n / 10) + 10,
            ;
            assert(n < 10 * (n / 10) + 10) by {
                vstd::arithmetic::div_mod::lemma_fundamental_div_mod(n, 10);
                vstd::arithmetic::div_mod::lemma_mod_bound(n, 10);
            }
        }
        assert(n >= pow10((dc(n) - 1) as nat)) by {
            assert(n / 10 >= pow10((dc(n / 10) - 1) as nat));
            assert(n >= 10 * (n / 10)) by {
                vstd::arithmetic::div_mod::lemma_fundamental_div_mod(n, 10);
                vstd::arithmetic::div_mod::lemma_mod_bound(n, 10);
            }
            assert(pow10((dc(n) - 1) as nat) == 10 * pow10((dc(n / 10) - 1) as nat));
            assert(n >= 10 * pow10((dc(n / 10) - 1) as nat)) by (nonlinear_arith)
                requires
                    n / 10 >= pow10((dc(n / 10) - 1) as nat),
                    n >= 10 * (n / 10),
            ;
        }
    }
}

/// The stripped form of `f` is the padded form of `f` with its trailing
/// zeros divided out, and those zeros divide `f` exactly.
proof fn lemma_stripped_padded(f: int, k: nat)
    requires
        0 <= f < pow10(k),
    ensures
        zc(f, k) <= k,
        f % pow10(zc(f, k)) == 0,
        f / pow10(zc(f, k)) < pow10((k - zc(f, k)) as nat),
        stripped_seq(f, k) == padded_seq(f / pow10(zc(f, k)), (k - zc(f, k)) as nat),
        f >= 1 ==> zc(f, k) < k,
    decreases k,
{
    pow10_vals();
    if k == 0 {
        assert(f == 0);
        assert(f % pow10(0) == 0) by {
            assert(pow10(0) == 1);
        }
        assert(stripped_seq(f, 0) =~= padded_seq(f / pow10(0), 0));
    } else if f % 10 == 0 {
        assert(f / 10 < pow10((k - 1) as nat)) by {
            assert(pow10(k) == 10 * pow10((k - 1) as nat));
            assert(f < 10 * pow10((k - 1) as nat));
            assert(f / 10 < pow10((k - 1) as nat)) by (nonlinear_arith)
                requires
                    f < 10 * pow10((k - 1) as nat),
                    f >= 0,
                    f % 10 == 0,
                    f == 10 * (f / 10) + f % 10,
            ;
            assert(f == 10 * (f / 10) + f % 10) by {
                vstd::arithmetic::div_mod::lemma_fundamental_div_mod(f, 10);
            }
        }
        lemma_stripped_padded(f / 10, (k - 1) as nat);
        let z1 = zc(f / 10, (k - 1) as nat);
        assert(zc(f, k) == z1 + 1);
        assert(pow10(z1 + 1) == 10 * pow10(z1));
        vstd::arithmetic::div_mod::lemma_fundamental_div_mod(f, 10);
        assert(f == 10 * (f / 10));
        // divisibility and quotient through the extra factor of ten
        assert((f / 10) % pow10(z1) == 0 && (f / 10) / pow10(z1) == f / pow10(z1 + 1) && f % pow10(
            z1 + 1,
        ) == 0) by {
            crate::bigfloat::lemma_pow10_monotone(0, z1);
            let q = (f / 10) / pow10(z1);
            assert(f / 10 == pow10(z1) * q) by {
                vstd::arithmetic::div_mod::lemma_fundamental_div_mod(f / 10, pow10(z1));
            }
            assert(f == q * (10 * pow10(z1)) + 0) by (nonlinear_arith)
                requires
                    f == 10 * (f / 10),
                    f / 10 == pow10(z1) * q,
            ;
            vstd::arithmetic::div_mod::lemma_fundamental_div_mod_converse(
                f,
                10 * pow10(z1),
                q,
                0,
            );
        }
    } else {
        assert(zc(f, k) == 0);
        assert(pow10(0) == 1);
        assert(f % 1 == 0) by {
            vstd::arithmetic::div_mod::lemma_mod_self_0(1);
            vstd::arithmetic::div_mod::lemma_small_mod(0, 1);
            assert(f == 1 * f + 0);
            vstd::arithmetic::div_mod::lemma_fundamental_div_mod_converse(f, 1, f, 0);
        }
        assert(f / 1 == f) by {
            vstd::arithmetic::div_mod::lemma_fundamental_div_mod_converse(f, 1, f, 0);
        }
        assert(stripped_seq(f, k) =~= padded_seq(f / pow10(0), (k - 0) as nat));
    }
}

/// Scanning a pure digit block accumulates its value and lowers the scale
/// by its length when behind the decimal point.
proof fn lemma_scan_block(t: Seq<char>, i: int, acc: int, sc: int, dot: bool, any: bool, f: int, k: nat)
    requires
        0 <= i,
        i + k <= t.len(),
        0 <= f < pow10(k),
        0 <= acc,
        acc * pow10(k) + f < 1_000_000_000_000_000_000,
        t.subrange(i, i + k) == padded_seq(f, k),
    ensures
        scan_mant(t, i, acc, sc, dot, any) == scan_mant(
            t,
            i + k,
            acc * pow10(k) + f,
            if dot {
                sc - k
            } else {
                sc
            },
            dot,
            any || k > 0,
        ),
    decreases k,
{
    pow10_vals();
    if k == 0 {
        assert(pow10(0) == 1);
    } else {
        // the first k-1 digits form the padded run of f/10
        assert(t.subrange(i, i + k - 1) =~= padded_seq(f / 10, (k - 1) as nat)) by {
            lemma_padded_digits(f / 10, (k - 1) as nat);
            vstd::arithmetic::div_mod::lemma_div_is_ordered(0, f, 10);
            assert(padded_seq(f, k) == padded_seq(f / 10, (k - 1) as nat) + seq![
                digit_char(f % 10),
            ]);
            assert forall|j: int| 0 <= j < k - 1 implies #[trigger] t.subrange(i, i + k - 1)[j]
                == padded_seq(f / 10, (k - 1) as nat)[j] by {
                assert(t.subrange(i, i + k - 1)[j] == t[i + j]);
                assert(t.subrange(i, i + k)[j] == t[i + j]);
                assert(t.subrange(i, i + k)[j] == padded_seq(f, k)[j]);
                assert(padded_seq(f, k)[j] == padded_seq(f / 10, (k - 1) as nat)[j]);
            }
        }
        assert(f / 10 < pow10((k - 1) as nat) && 10 * (f / 10) + f % 10 == f && 0 <= f % 10 < 10)
            by {
            vstd::arithmetic::div_mod::lemma_fundamental_div_mod(f, 10);
            vstd::arithmetic::div_mod::lemma_mod_bound(f, 10);
            assert(pow10(k) == 10 * pow10((k - 1) as nat));
            assert(f / 10 < pow10((k - 1) as nat)) by (nonlinear_arith)
                requires
                    f < 10 * pow10((k - 1) as nat),
                    f == 10 * (f / 10) + f % 10,
                    0 <= f % 10 < 10,
            ;
        }
        let acc1 = acc * pow10((k - 1) as nat) + f / 10;
        assert(acc1 * 10 + f % 10 == acc * pow10(k) + f) by (nonlinear_arith)
            requires
                pow10(k) == 10 * pow10((k - 1) as nat),
                f == 10 * (f / 10) + f % 10,
                acc1 == acc * pow10((k - 1) as nat) + f / 10,
        ;
        assert(0 <= acc1 && acc1 < 1_000_000_000_000_000_000) by (nonlinear_arith)
            requires
                acc >= 0,
                f >= 0,
                f / 10 >= 0,
                pow10((k - 1) as nat) >= 1,
                acc1 == acc * pow10((k - 1) as nat) + f / 10,
                acc1 * 10 + f % 10 == acc * pow10(k) + f,
                acc * pow10(k) + f < 1_000_000_000_000_000_000,
                0 <= f % 10 < 10,
        ;
        lemma_scan_block(t, i, acc, sc, dot, any, f / 10, (k - 1) as nat);
        // one more step for the last digit
        let c = t[i + k - 1];
        assert(c == digit_char(f % 10)) by {
            assert(t.subrange(i, i + k)[k - 1] == c);
            assert(padded_seq(f, k)[k - 1] == digit_char(f % 10));
        }
        lemma_digit_char(f % 10);
        assert(scan_mant(t, i + k - 1, acc1, if dot { sc - (k - 1) } else { sc }, dot, true)
            == scan_mant(
            t,
            i + k,
            acc1 * 10 + f % 10,
            if dot {
                sc - k
            } else {
                sc
            },
            dot,
            true,
        ));
    }
}

/// Scanning a pure digit block as an integer exponent accumulates its
/// value (the magnitude cap is never hit below `2^63`).
proof fn lemma_scan_int_block(t: Seq<char>, i: int, acc: int, f: int, k: nat)
    requires
        0 <= i,
        i + k <= t.len(),
        0 <= f < pow10(k),
        0 <= acc,
        acc * pow10(k) + f <= 9_223_372_036_854_775_808,
        t.subrange(i, i + k) == padded_seq(f, k),
    ensures
        scan_int(t, i, acc) == scan_int(t, i + k, acc * pow10(k) + f),
    decreases k,
{
    pow10_vals();
    if k == 0 {
        assert(pow10(0) == 1);
    } else {
        assert(t.subrange(i, i + k - 1) =~= padded_seq(f / 10, (k - 1) as nat)) by {
            lemma_padded_digits(f / 10, (k - 1) as nat);
            vstd::arithmetic::div_mod::lemma_div_is_ordered(0, f, 10);
            assert(padded_seq(f, k) == padded_seq(f / 10, (k - 1) as nat) + seq![
                digit_char(f % 10),
            ]);
            assert forall|j: int| 0 <= j < k - 1 implies #[trigger] t.subrange(i, i + k - 1)[j]
                == padded_seq(f / 10, (k - 1) as nat)[j] by {
                assert(t.subrange(i, i + k - 1)[j] == t[i + j]);
                assert(t.subrange(i, i + k)[j] == t[i + j]);
                assert(t.subrange(i, i + k)[j] == padded_seq(f, k)[j]);
                assert(padded_seq(f, k)[j] == padded_seq(f / 10, (k - 1) as nat)[j]);
            }
        }
        assert(f / 10 < pow10((k - 1) as nat) && 10 * (f / 10) + f % 10 == f && 0 <= f % 10 < 10)
            by {
            vstd::arithmetic::div_mod::lemma_fundamental_div_mod(f, 10);
            vstd::arithmetic::div_mod::lemma_mod_bound(f, 10);
            assert(pow10(k) == 10 * pow10((k - 1) as nat));
            assert(f / 10 < pow10((k - 1) as nat)) by (nonlinear_arith)
                requires
                    f < 10 * pow10((k - 1) as nat),
                    f == 10 * (f / 10) + f % 10,
                    0 <= f % 10 < 10,
            ;
        }
        let acc1 = acc * pow10((k - 1) as nat) + f / 10;
        assert(acc1 * 10 + f % 10 == acc * pow10(k) + f) by (nonlinear_arith)
            requires
                pow10(k) == 10 * pow10((k - 1) as nat),
                f == 10 * (f / 10) + f % 10,
                acc1 == acc * pow10((k - 1) as nat) + f / 10,
        ;
        assert(0 <= acc1) by (nonlinear_arith)
            requires
                acc >= 0,
                f / 10 >= 0,
                pow10((k - 1) as nat) >= 1,
                acc1 == acc * pow10((k - 1) as nat) + f / 10,
        ;
        lemma_scan_int_block(t, i, acc, f / 10, (k - 1) as nat);
        let c = t[i + k - 1];
        assert(c == digit_char(f % 10)) by {
            assert(t.subrange(i, i + k)[k - 1] == c);
            assert(padded_seq(f, k)[k - 1] == digit_char(f % 10));
        }
        lemma_digit_char(f % 10);
    }
}

/// The trailing-zero count of a banded mantissa's fractional digits: how
/// far its unit count divides by ten (14 when the mantissa is a single
/// digit).
pub open spec fn mant_z(mag: int) -> nat {
    if mag % (SCALE as int) == 0 {
        14
    } else {
        zc(mag % (SCALE as int), 14)
    }
}

/// Scanning a full mantissa rendering yields the unit count with its
/// trailing zeros divided out, and the matching negative scale.
proof fn lemma_scan_mant_at(t: Seq<char>, i: int, mag: int)
    requires
        0 <= i,
        SCALE <= mag < TEN_SCALE,
        t.subrange(i, t.len() as int) == mant_seq(mag),
        i + mant_seq(mag).len() == t.len(),
    ensures
        mag % pow10(mant_z(mag)) == 0,
        scan_mant(t, i, 0, 0, false, false) == Some(
            (mag / pow10(mant_z(mag)), mant_z(mag) - 14),
        ),
    decreases 0int,
{
    pow10_vals();
    let s: int = SCALE as int;
    let first = mag / s;
    let frac = mag % s;
    vstd::arithmetic::div_mod::lemma_fundamental_div_mod(mag, s);
    vstd::arithmetic::div_mod::lemma_mod_bound(mag, s);
    assert(1 <= first <= 9) by {
        assert((TEN_SCALE as int - 1) / s == 9) by {
            vstd::arithmetic::div_mod::lemma_fundamental_div_mod_converse(
                TEN_SCALE as int - 1,
                s,
                9,
                s - 1,
            );
        }
        vstd::arithmetic::div_mod::lemma_div_is_ordered(mag, TEN_SCALE as int - 1, s);
        vstd::arithmetic::div_mod::lemma_div_is_ordered(s, mag, s);
        vstd::arithmetic::div_mod::lemma_div_multiples_vanish(1, s);
    }
    lemma_digit_char(first);
    if frac == 0 {
        // single digit: mag == first * SCALE
        assert(t.len() - i == 1);
        assert(t[i] == digit_char(first)) by {
            assert(t.subrange(i, t.len() as int)[0] == t[i]);
        }
        assert(scan_mant(t, i, 0, 0, false, false) == scan_mant(t, i + 1, first, 0, false, true));
        assert(mag % pow10(14) == 0 && mag / pow10(14) == first) by {
            vstd::arithmetic::div_mod::lemma_fundamental_div_mod_converse(mag, s, first, 0);
        }
    } else {
        let z = zc(frac, 14);
        lemma_stripped_padded(frac, 14);
        crate::bigfloat::lemma_pow10_monotone(0, zc(frac, 14));
        vstd::arithmetic::div_mod::lemma_div_is_ordered(0, frac, pow10(zc(frac, 14)));
        let fq = frac / pow10(z);
        lemma_padded_digits(fq, (14 - z) as nat);
        assert(mant_seq(mag).len() == 2 + (14 - z));
        assert(t[i] == digit_char(first) && t[i + 1] == '.') by {
            assert(t.subrange(i, t.len() as int)[0] == t[i]);
            assert(t.subrange(i, t.len() as int)[1] == t[i + 1]);
            assert(mant_seq(mag)[0] == digit_char(first));
            assert(mant_seq(mag)[1] == '.');
        }
        assert(scan_mant(t, i, 0, 0, false, false) == scan_mant(t, i + 1, first, 0, false, true));
        assert(scan_mant(t, i + 1, first, 0, false, true) == scan_mant(
            t,
            i + 2,
            first,
            0,
            true,
            true,
        )) by {
            lemma_digit_char(first);
            assert(t[i + 1] == '.');
        }
        assert(t.subrange(i + 2, i + 2 + (14 - z)) =~= padded_seq(fq, (14 - z) as nat)) by {
            assert forall|j: int| 0 <= j < 14 - z implies #[trigger] t.subrange(
                i + 2,
                i + 2 + (14 - z),
            )[j] == padded_seq(fq, (14 - z) as nat)[j] by {
                assert(t.subrange(i + 2, i + 2 + (14 - z))[j] == t[i + 2 + j]);
                assert(t.subrange(i, t.len() as int)[2 + j] == t[i + 2 + j]);
                assert(mant_seq(mag)[2 + j] == stripped_seq(frac, 14)[j]);
            }
        }
        let accf = first * pow10((14 - z) as nat) + fq;
        assert(accf < 1_000_000_000_000_000_000) by {
            crate::bigfloat::lemma_pow10_monotone((14 - z) as nat, 14);
            assert(first * pow10((14 - z) as nat) <= 9 * pow10(14)) by (nonlinear_arith)
                requires
                    1 <= first <= 9,
                    0 < pow10((14 - z) as nat) <= pow10(14),
            ;
        }
        lemma_scan_block(t, i + 2, first, 0, true, true, fq, (14 - z) as nat);
        // the accumulated count is the unit count with its zeros divided out
        assert(mag % pow10(z) == 0 && mag / pow10(z) == accf) by {
            crate::bigfloat::lemma_pow10_monotone(0, z);
            assert(frac == pow10(z) * fq) by {
                vstd::arithmetic::div_mod::lemma_fundamental_div_mod(frac, pow10(z));
            }
            assert(s == pow10(z) * pow10((14 - z) as nat)) by {
                crate::math::lemma_pow10_split(z, (14 - z) as nat);
            }
            assert(mag == accf * pow10(z) + 0) by (nonlinear_arith)
                requires
                    mag == s * first + frac,
                    frac == pow10(z) * fq,
                    s == pow10(z) * pow10((14 - z) as nat),
                    accf == first * pow10((14 - z) as nat) + fq,
            ;
            vstd::arithmetic::div_mod::lemma_fundamental_div_mod_converse(
                mag,
                pow10(z),
                accf,
                0,
            );
        }
        assert(mant_z(mag) == z);
    }
}

/// Parsing the signed mantissa rendering as a decimal number.
proof fn lemma_dec_parse_mant(neg: bool, mag: int)
    requires
        SCALE <= mag < TEN_SCALE,
    ensures
        mag % pow10(mant_z(mag)) == 0,
        dec_parse(sign_seq(neg) + mant_seq(mag)) == Some(
            (
                if neg {
                    -(mag / pow10(mant_z(mag)))
                } else {
                    mag / pow10(mant_z(mag))
                },
                mant_z(mag) - 14,
            ),
        ),
{
    pow10_vals();
    let t = sign_seq(neg) + mant_seq(mag);
    lemma_mant_first_digit(mag);
    if neg {
        assert(t[0] == '-');
        assert(t.subrange(1, t.len() as int) =~= mant_seq(mag));
        lemma_scan_mant_at(t, 1, mag);
    } else {
        assert(t =~= mant_seq(mag));
        assert(t.subrange(0, t.len() as int) =~= mant_seq(mag));
        lemma_scan_mant_at(t, 0, mag);
        assert(t[0] == mant_seq(mag)[0]);
        assert(t[0] != '-' && t[0] != '+') by {
            lemma_digit_char(mag / (SCALE as int));
        }
    }
}

/// The first character of a mantissa rendering is its leading digit.
proof fn lemma_mant_first_digit(mag: int)
    requires
        SCALE <= mag < TEN_SCALE,
    ensures
        mant_seq(mag).len() >= 1,
        mant_seq(mag)[0] == digit_char(mag / (SCALE as int)),
        1 <= mag / (SCALE as int) <= 9,
{
    pow10_vals();
    let s: int = SCALE as int;
    assert((TEN_SCALE as int - 1) / s == 9) by {
        vstd::arithmetic::div_mod::lemma_fundamental_div_mod_converse(
            TEN_SCALE as int - 1,
            s,
            9,
            s - 1,
        );
    }
    vstd::arithmetic::div_mod::lemma_div_is_ordered(mag, TEN_SCALE as int - 1, s);
    vstd::arithmetic::div_mod::lemma_div_is_ordered(s, mag, s);
    vstd::arithmetic::div_mod::lemma_div_multiples_vanish(1, s);
}

/// Parsing the rendering of a plain integer exponent.
proof fn lemma_int_parse_seq(e: int)
    requires
        in_i64(e),
    ensures
        int_parse(int_seq(e)) == Some(e),
{
    pow10_vals();
    let mag = iabs(e);
    lemma_dec_padded(mag);
    assert(mag <= 9_223_372_036_854_775_808);
    let t = int_seq(e);
    lemma_padded_digits(mag, dc(mag));
    if e < 0 {
        assert(t[0] == '-');
        assert(t.subrange(1, t.len() as int) =~= padded_seq(mag, dc(mag))) by {
            assert(dec_seq(mag) == padded_seq(mag, dc(mag)));
        }
        lemma_scan_int_block(t, 1, 0, mag, dc(mag));
        assert(scan_int(t, 1 + dc(mag) as int, mag) == Some(mag));
        assert(t.len() > 1);
    } else {
        assert(t =~= padded_seq(mag, dc(mag))) by {
            assert(dec_seq(mag) == padded_seq(mag, dc(mag)));
        }
        assert(t.subrange(0, t.len() as int) =~= padded_seq(mag, dc(mag)));
        lemma_scan_int_block(t, 0, 0, mag, dc(mag));
        assert(t[0] == padded_seq(mag, dc(mag))[0]);
        assert(t[0] != '-' && t[0] != '+') by {
            assert(is_digit(t[0]));
            assert(t[0] != '-' && t[0] != '+') by {
                if t[0] == '-' || t[0] == '+' {
                    assert(!is_digit('-') && !is_digit('+'));
                }
            }
        }
    }
}

/// `find_e` skips a region free of exponent markers.
proof fn lemma_find_e_skip(t: Seq<char>, i: int, j: int)
    requires
        0 <= i <= j <= t.len(),
        forall|k: int| i <= k < j ==> #[trigger] t[k] != 'e' && t[k] != 'E',
    ensures
        find_e(t, i) == find_e(t, j),
    decreases j - i,
{
    if i < j {
        lemma_find_e_skip(t, i + 1, j);
    }
}

/// `find_times` skips a region free of spaces (the nested-exponent marker
/// begins with a space).
proof fn lemma_find_times_skip(t: Seq<char>, i: int, j: int)
    requires
        0 <= i <= j <= t.len(),
        forall|k: int| i <= k < j ==> #[trigger] t[k] != ' ',
    ensures
        find_times(t, i) == find_times(t, j),
    decreases j - i,
{
    if i < j {
        assert(!times_at(t, i)) by {
            if times_at(t, i) {
                assert(t.subrange(i, i + 7)[0] == t[i]);
                assert(crate::convert::times_pat()[0] == ' ');
            }
        }
        lemma_find_times_skip(t, i + 1, j);
    }
}

/// Exact denormalization: a count that reaches the band after `z` exact
/// multiplications by ten normalizes to precisely that banded count.
proof fn lemma_norm_exact(m: int, z: nat, e: int)
    requires
        1 <= m,
        SCALE <= m * pow10(z) < TEN_SCALE,
    ensures
        crate::bigfloat::norm_pos(m, e) == (m * pow10(z), e - z),
    decreases z,
{
    pow10_vals();
    if z == 0 {
        assert(pow10(0) == 1);
        assert(m * pow10(0) == m) by (nonlinear_arith)
            requires
                pow10(0) == 1,
        ;
        assert(crate::bigfloat::shrink(m, e) == (m, e));
        assert(crate::bigfloat::grow(m, e) == (m, e));
    } else {
        crate::bigfloat::lemma_pow10_monotone(0, (z - 1) as nat);
        assert(m < SCALE) by {
            crate::bigfloat::lemma_pow10_monotone(1, z);
            assert(m * pow10(z) >= m * 10) by (nonlinear_arith)
                requires
                    m >= 1,
                    pow10(z) >= 10,
            ;
            assert(m * 10 <= m * pow10(z)) by (nonlinear_arith)
                requires
                    m >= 1,
                    pow10(z) >= 10,
            ;
            if m >= SCALE {
                assert(m * 10 >= SCALE * 10) by (nonlinear_arith)
                    requires
                        m >= SCALE,
                ;
            }
        }
        assert(crate::bigfloat::shrink(m, e) == (m, e));
        assert((m * 10) * pow10((z - 1) as nat) == m * pow10(z)) by (nonlinear_arith)
            requires
                pow10(z) == 10 * pow10((z - 1) as nat),
        ;
        lemma_norm_exact(m * 10, (z - 1) as nat, e - 1);
        assert(crate::bigfloat::shrink(m * 10, e - 1) == (m * 10, e - 1)) by {
            assert(m * 10 < TEN_SCALE) by (nonlinear_arith)
                requires
                    (m * 10) * pow10((z - 1) as nat) < TEN_SCALE,
                    pow10((z - 1) as nat) >= 1,
                    m >= 1,
            ;
        }
    }
}

/// The first kept digit after stripping is not zero.
proof fn lemma_strip_last(f: int, k: nat)
    requires
        1 <= f < pow10(k),
    ensures
        (f / pow10(zc(f, k))) % 10 != 0,
    decreases k,
{
    pow10_vals();
    if k == 0 {
    } else if f % 10 == 0 {
        assert(f == 10 * (f / 10) && f / 10 >= 1 && f / 10 < pow10((k - 1) as nat)) by {
            vstd::arithmetic::div_mod::lemma_fundamental_div_mod(f, 10);
            assert(pow10(k) == 10 * pow10((k - 1) as nat));
            assert(f / 10 < pow10((k - 1) as nat) && f / 10 >= 1) by (nonlinear_arith)
                requires
                    f < 10 * pow10((k - 1) as nat),
                    f >= 1,
                    f % 10 == 0,
                    f == 10 * (f / 10) + f % 10,
            ;
        }
        lemma_strip_last(f / 10, (k - 1) as nat);
        let z1 = zc(f / 10, (k - 1) as nat);
        crate::bigfloat::lemma_pow10_monotone(0, z1);
        assert((f / 10) / pow10(z1) == f / pow10(z1 + 1)) by {
            vstd::arithmetic::div_mod::lemma_div_denominator(f, 10, pow10(z1));
            assert(pow10(z1 + 1) == 10 * pow10(z1));
        }
    } else {
        assert(pow10(0) == 1);
        assert(f / 1 == f) by {
            vstd::arithmetic::div_mod::lemma_fundamental_div_mod_converse(f, 1, f, 0);
        }
    }
}

/// The first character of a padded run is its leading digit.
proof fn lemma_padded_first(f: int, k: nat)
    requires
        k >= 1,
        0 <= f < pow10(k),
    ensures
        padded_seq(f, k)[0] == digit_char(f / pow10((k - 1) as nat)),
        0 <= f / pow10((k - 1) as nat) <= 9,
    decreases k,
{
    pow10_vals();
    lemma_padded_digits(f / 10, (k - 1) as nat);
    if k == 1 {
        assert(pow10(0) == 1);
        assert(f / 1 == f) by {
            vstd::arithmetic::div_mod::lemma_fundamental_div_mod_converse(f, 1, f, 0);
        }
        vstd::arithmetic::div_mod::lemma_small_mod(f as nat, 10);
        assert(padded_seq(f, 1)[0] == digit_char(f % 10));
    } else {
        assert(f / 10 < pow10((k - 1) as nat)) by {
            assert(pow10(k) == 10 * pow10((k - 1) as nat));
            vstd::arithmetic::div_mod::lemma_fundamental_div_mod(f, 10);
            vstd::arithmetic::div_mod::lemma_mod_bound(f, 10);
            assert(f / 10 < pow10((k - 1) as nat)) by (nonlinear_arith)
                requires
                    f < 10 * pow10((k - 1) as nat),
                    f == 10 * (f / 10) + f % 10,
                    0 <= f % 10 < 10,
            ;
        }
        vstd::arithmetic::div_mod::lemma_div_is_ordered(0, f, 10);
        lemma_padded_first(f / 10, (k - 1) as nat);
        assert(padded_seq(f, k)[0] == padded_seq(f / 10, (k - 1) as nat)[0]);
        assert((f / 10) / pow10((k - 2) as nat) == f / pow10((k - 1) as nat)) by {
            crate::bigfloat::lemma_pow10_monotone(0, (k - 2) as nat);
            vstd::arithmetic::div_mod::lemma_div_denominator(f, 10, pow10((k - 2) as nat));
            assert(pow10((k - 1) as nat) == 10 * pow10((k - 2) as nat));
        }
    }
}

/// All-zero runs are padded runs of zero.
proof fn lemma_zeros_padded(k: nat)
    ensures
        zeros_seq(k) == padded_seq(0, k),
        forall|j: int| 0 <= j < k ==> #[trigger] zeros_seq(k)[j] == '0',
    decreases k,
{
    if k > 0 {
        lemma_zeros_padded((k - 1) as nat);
        lemma_padded_digits(0, k);
        assert(zeros_seq(k) =~= padded_seq(0, k)) by {
            lemma_padded_digits(0, (k - 1) as nat);
            assert(0int / 10 == 0) by {
                vstd::arithmetic::div_mod::lemma_basic_div(0, 10);
            }
            assert(0int % 10 == 0) by {
                vstd::arithmetic::div_mod::lemma_small_mod(0, 10);
            }
            assert forall|j: int| 0 <= j < k implies #[trigger] zeros_seq(k)[j] == padded_seq(
                0,
                k,
            )[j] by {
                if j == 0 {
                    assert(zeros_seq(k)[0] == '0');
                    if k == 1 {
                        assert(padded_seq(0, 1)[0] == digit_char(0));
                    } else {
                        crate::bigfloat::lemma_pow10_monotone(0, k);
                        lemma_padded_first(0, k);
                        assert(0int / pow10((k - 1) as nat) == 0) by {
                            crate::bigfloat::lemma_pow10_monotone(0, (k - 1) as nat);
                            vstd::arithmetic::div_mod::lemma_basic_div(
                                0,
                                pow10((k - 1) as nat),
                            );
                        }
                    }
                } else {
                    assert(zeros_seq(k)[j] == zeros_seq((k - 1) as nat)[j - 1]);
                    assert(zeros_seq((k - 1) as nat)[j - 1] == padded_seq(0, (k - 1) as nat)[j
                        - 1]);
                    if j < k - 1 + 1 {
                        if j <= k - 2 {
                            assert(padded_seq(0, k)[j] == padded_seq(0, (k - 1) as nat)[j]);
                        }
                    }
                    assert(padded_seq(0, (k - 1) as nat)[j - 1] == '0') by {
                        lemma_all_zero_padded((k - 1) as nat, j - 1);
                    }
                    assert(padded_seq(0, k)[j] == '0') by {
                        lemma_all_zero_padded(k, j);
                    }
                }
            }
        }
    }
}

/// Every character of the padded run of zero is the zero digit.
proof fn lemma_all_zero_padded(k: nat, j: int)
    requires
        0 <= j < k,
    ensures
        padded_seq(0, k)[j] == '0',
    decreases k,
{
    lemma_padded_digits(0, (k - 1) as nat);
    assert(0int / 10 == 0) by {
        vstd::arithmetic::div_mod::lemma_basic_div(0, 10);
    }
    assert(0int % 10 == 0) by {
        vstd::arithmetic::div_mod::lemma_small_mod(0, 10);
    }
    if j < k - 1 {
        lemma_all_zero_padded((k - 1) as nat, j);
        assert(padded_seq(0, k)[j] == padded_seq(0, (k - 1) as nat)[j]);
    } else {
        assert(padded_seq(0, k)[j] == digit_char(0));
    }
}

/// The trailing-zero frame of the expanded rendering at exponent `e`.
pub open spec fn exp_z(mag: int, e: int) -> nat {
    if e >= 0 {
        if mag % pow10((14 - e) as nat) == 0 {
            (14 - e) as nat
        } else {
            zc(mag % pow10((14 - e) as nat), (14 - e) as nat)
        }
    } else {
        zc(mag, 15)
    }
}

/// Parsing the signed expanded rendering as a decimal number.
proof fn lemma_dec_parse_expanded(neg: bool, mag: int, e: int)
    requires
        SCALE <= mag < TEN_SCALE,
        -4 <= e <= 6,
    ensures
        mag % pow10(exp_z(mag, e)) == 0,
        exp_z(mag, e) <= 14,
        dec_parse(sign_seq(neg) + expanded_seq(mag, e)) == Some(
            (
                if neg {
                    -(mag / pow10(exp_z(mag, e)))
                } else {
                    mag / pow10(exp_z(mag, e))
                },
                exp_z(mag, e) - 14 + e,
            ),
        ),
{
    pow10_vals();
    let t = sign_seq(neg) + expanded_seq(mag, e);
    let off: int = if neg {
        1
    } else {
        0
    };
    assert(t.subrange(off, t.len() as int) =~= expanded_seq(mag, e));
    lemma_scan_expanded_at(t, off, mag, e);
    if neg {
        assert(t[0] == '-');
    } else {
        assert(t[0] == expanded_seq(mag, e)[0]);
        lemma_expanded_first(mag, e);
        assert(t[0] != '-' && t[0] != '+');
    }
}

/// The first character of an expanded rendering is a digit.
proof fn lemma_expanded_first(mag: int, e: int)
    requires
        SCALE <= mag < TEN_SCALE,
        -4 <= e <= 6,
    ensures
        expanded_seq(mag, e).len() >= 1,
        is_digit(expanded_seq(mag, e)[0]),
        e >= 0 ==> expanded_seq(mag, e)[0] != '0',
        e < 0 ==> expanded_seq(mag, e)[0] == '0',
{
    pow10_vals();
    if e >= 0 {
        let d = pow10((14 - e) as nat);
        let ip = mag / d;
        lemma_ip_band(mag, e);
        lemma_dec_padded(ip);
        lemma_padded_digits(ip, dc(ip));
        assert(expanded_seq(mag, e)[0] == dec_seq(ip)[0]);
        lemma_padded_first(ip, dc(ip));
        assert(ip / pow10((dc(ip) - 1) as nat) >= 1) by {
            crate::bigfloat::lemma_pow10_monotone(0, (dc(ip) - 1) as nat);
            vstd::arithmetic::div_mod::lemma_div_multiples_vanish(1, pow10((dc(ip) - 1) as nat));
            vstd::arithmetic::div_mod::lemma_div_is_ordered(
                pow10((dc(ip) - 1) as nat),
                ip,
                pow10((dc(ip) - 1) as nat),
            );
        }
        lemma_digit_char(ip / pow10((dc(ip) - 1) as nat));
    } else {
        lemma_digit_char(0);
    }
}

/// The integer part of the expanded rendering lies in its digit band.
proof fn lemma_ip_band(mag: int, e: int)
    requires
        SCALE <= mag < TEN_SCALE,
        0 <= e <= 6,
    ensures
        pow10(e as nat) <= mag / pow10((14 - e) as nat) < pow10((e + 1) as nat),
        dc(mag / pow10((14 - e) as nat)) == e + 1,
{
    pow10_vals();
    let d = pow10((14 - e) as nat);
    crate::bigfloat::lemma_pow10_monotone(0, (14 - e) as nat);
    assert(SCALE as int == pow10(e as nat) * d) by {
        crate::math::lemma_pow10_split(e as nat, (14 - e) as nat);
    }
    assert(TEN_SCALE as int == pow10((e + 1) as nat) * d) by {
        crate::math::lemma_pow10_split((e + 1) as nat, (14 - e) as nat);
    }
    assert((pow10(e as nat) * d) / d == pow10(e as nat)) by {
        assert(pow10(e as nat) * d == d * pow10(e as nat)) by (nonlinear_arith);
        vstd::arithmetic::div_mod::lemma_div_multiples_vanish(pow10(e as nat), d);
    }
    vstd::arithmetic::div_mod::lemma_div_is_ordered(pow10(e as nat) * d, mag, d);
    assert((pow10((e + 1) as nat) * d - 1) / d == pow10((e + 1) as nat) - 1) by {
        assert(pow10((e + 1) as nat) * d - 1 == (pow10((e + 1) as nat) - 1) * d + (d - 1))
            by (nonlinear_arith);
        vstd::arithmetic::div_mod::lemma_fundamental_div_mod_converse(
            pow10((e + 1) as nat) * d - 1,
            d,
            pow10((e + 1) as nat) - 1,
            d - 1,
        );
    }
    vstd::arithmetic::div_mod::lemma_div_is_ordered(mag, pow10((e + 1) as nat) * d - 1, d);
    let ip = mag / d;
    lemma_dec_padded(ip);
    // the digit-count brackets pin dc(ip) to e + 1
    if dc(ip) <= e {
        crate::bigfloat::lemma_pow10_monotone(dc(ip), e as nat);
        assert(false);
    }
    if dc(ip) >= e + 2 {
        crate::bigfloat::lemma_pow10_monotone((e + 1) as nat, (dc(ip) - 1) as nat);
        assert(false);
    }
}

/// Scanning a full expanded rendering from `off`.
proof fn lemma_scan_expanded_at(t: Seq<char>, off: int, mag: int, e: int)
    requires
        0 <= off,
        SCALE <= mag < TEN_SCALE,
        -4 <= e <= 6,
        t.subrange(off, t.len() as int) == expanded_seq(mag, e),
        off + expanded_seq(mag, e).len() == t.len(),
    ensures
        mag % pow10(exp_z(mag, e)) == 0,
        exp_z(mag, e) <= 14,
        scan_mant(t, off, 0, 0, false, false) == Some(
            (mag / pow10(exp_z(mag, e)), exp_z(mag, e) - 14 + e),
        ),
{
    pow10_vals();
    if e >= 0 {
        let d = pow10((14 - e) as nat);
        crate::bigfloat::lemma_pow10_monotone(0, (14 - e) as nat);
        let ip = mag / d;
        let fp = mag % d;
        vstd::arithmetic::div_mod::lemma_fundamental_div_mod(mag, d);
        vstd::arithmetic::div_mod::lemma_mod_bound(mag, d);
        lemma_ip_band(mag, e);
        lemma_dec_padded(ip);
        lemma_padded_digits(ip, dc(ip));
        let kd = dc(ip) as int;
        if fp == 0 {
            assert(t.subrange(off, off + kd) =~= padded_seq(ip, dc(ip))) by {
                assert forall|j: int| 0 <= j < kd implies #[trigger] t.subrange(off, off + kd)[j]
                    == padded_seq(ip, dc(ip))[j] by {
                    assert(t.subrange(off, t.len() as int)[j] == t[off + j]);
                    assert(expanded_seq(mag, e)[j] == dec_seq(ip)[j]);
                }
            }
            assert(ip < 1_000_000_000_000_000_000) by {
                crate::bigfloat::lemma_pow10_monotone(dc(ip), 8);
            }
            lemma_scan_block(t, off, 0, 0, false, false, ip, dc(ip));
            assert(0 * pow10(dc(ip)) + ip == ip) by (nonlinear_arith);
            assert(exp_z(mag, e) == (14 - e) as nat);
            assert(mag / d == ip);
            assert(exp_z(mag, e) - 14 + e == 0);
        } else {
            let z = zc(fp, (14 - e) as nat);
            lemma_stripped_padded(fp, (14 - e) as nat);
            crate::bigfloat::lemma_pow10_monotone(0, z);
            vstd::arithmetic::div_mod::lemma_div_is_ordered(0, fp, pow10(z));
            let fq = fp / pow10(z);
            let kf = (14 - e - z) as int;
            lemma_padded_digits(fq, (14 - e - z) as nat);
            assert(expanded_seq(mag, e).len() == kd + 1 + kf);
            assert(t.subrange(off, off + kd) =~= padded_seq(ip, dc(ip))) by {
                assert forall|j: int| 0 <= j < kd implies #[trigger] t.subrange(off, off + kd)[j]
                    == padded_seq(ip, dc(ip))[j] by {
                    assert(t.subrange(off, t.len() as int)[j] == t[off + j]);
                    assert(expanded_seq(mag, e)[j] == dec_seq(ip)[j]);
                }
            }
            assert(ip < 1_000_000_000_000_000_000) by {
                crate::bigfloat::lemma_pow10_monotone(dc(ip), 8);
            }
            lemma_scan_block(t, off, 0, 0, false, false, ip, dc(ip));
            assert(0 * pow10(dc(ip)) + ip == ip) by (nonlinear_arith);
            assert(t[off + kd] == '.') by {
                assert(t.subrange(off, t.len() as int)[kd] == t[off + kd]);
                assert(expanded_seq(mag, e)[kd] == '.');
            }
            lemma_digit_char(0);
            assert(scan_mant(t, off + kd, ip, 0, false, true) == scan_mant(
                t,
                off + kd + 1,
                ip,
                0,
                true,
                true,
            )) by {
                assert(!is_digit('.'));
            }
            assert(t.subrange(off + kd + 1, off + kd + 1 + kf) =~= padded_seq(
                fq,
                (14 - e - z) as nat,
            )) by {
                assert forall|j: int| 0 <= j < kf implies #[trigger] t.subrange(
                    off + kd + 1,
                    off + kd + 1 + kf,
                )[j] == padded_seq(fq, (14 - e - z) as nat)[j] by {
                    assert(t.subrange(off, t.len() as int)[kd + 1 + j] == t[off + kd + 1 + j]);
                    assert(expanded_seq(mag, e)[kd + 1 + j] == stripped_seq(
                        fp,
                        (14 - e) as nat,
                    )[j]);
                }
            }
            let accf = ip * pow10((14 - e - z) as nat) + fq;
            assert(mag % pow10(z) == 0 && mag / pow10(z) == accf) by {
                assert(fp == pow10(z) * fq) by {
                    vstd::arithmetic::div_mod::lemma_fundamental_div_mod(fp, pow10(z));
                }
                assert(d == pow10(z) * pow10((14 - e - z) as nat)) by {
                    crate::math::lemma_pow10_split(z, (14 - e - z) as nat);
                }
                assert(mag == accf * pow10(z) + 0) by (nonlinear_arith)
                    requires
                        mag == d * ip + fp,
                        fp == pow10(z) * fq,
                        d == pow10(z) * pow10((14 - e - z) as nat),
                        accf == ip * pow10((14 - e - z) as nat) + fq,
                ;
                vstd::arithmetic::div_mod::lemma_fundamental_div_mod_converse(
                    mag,
                    pow10(z),
                    accf,
                    0,
                );
            }
            assert(accf < 1_000_000_000_000_000_000) by {
                assert(mag / pow10(z) <= mag / 1) by {
                    vstd::arithmetic::div_mod::lemma_div_is_ordered_by_denominator(
                        mag,
                        1,
                        pow10(z),
                    );
                }
                assert(mag / 1 == mag) by {
                    vstd::arithmetic::div_mod::lemma_fundamental_div_mod_converse(mag, 1, mag, 0);
                }
            }
            lemma_scan_block(t, off + kd + 1, ip, 0, true, true, fq, (14 - e - z) as nat);
            assert(exp_z(mag, e) == z);
        }
    } else {
        let k0 = (-e - 1) as nat;
        let z = zc(mag, 15);
        lemma_stripped_padded(mag, 15);
        crate::bigfloat::lemma_pow10_monotone(0, z);
        vstd::arithmetic::div_mod::lemma_div_is_ordered(0, mag, pow10(z));
        let mq = mag / pow10(z);
        let km = (15 - z) as int;
        lemma_zeros_padded(k0);
        lemma_padded_digits(0, k0);
        lemma_padded_digits(mq, (15 - z) as nat);
        assert(expanded_seq(mag, e).len() == 2 + k0 + km);
        lemma_digit_char(0);
        assert(t[off] == '0' && t[off + 1] == '.') by {
            assert(t.subrange(off, t.len() as int)[0] == t[off]);
            assert(t.subrange(off, t.len() as int)[1] == t[off + 1]);
            assert(expanded_seq(mag, e)[0] == '0');
            assert(expanded_seq(mag, e)[1] == '.');
        }
        assert(is_digit('0') && digit_val('0') == 0);
        assert(scan_mant(t, off, 0, 0, false, false) == scan_mant(t, off + 1, 0, 0, false, true));
        assert(scan_mant(t, off + 1, 0, 0, false, true) == scan_mant(t, off + 2, 0, 0, true, true))
            by {
            assert(!is_digit('.'));
        }
        assert(t.subrange(off + 2, off + 2 + k0) =~= padded_seq(0, k0)) by {
            assert forall|j: int| 0 <= j < k0 implies #[trigger] t.subrange(
                off + 2,
                off + 2 + k0,
            )[j] == padded_seq(0, k0)[j] by {
                assert(t.subrange(off, t.len() as int)[2 + j] == t[off + 2 + j]);
                assert(expanded_seq(mag, e)[2 + j] == zeros_seq(k0)[j]);
            }
        }
        lemma_scan_block(t, off + 2, 0, 0, true, true, 0, k0);
        assert(0 * pow10(k0) + 0 == 0) by (nonlinear_arith);
        assert(t.subrange(off + 2 + k0, off + 2 + k0 + km) =~= padded_seq(mq, (15 - z) as nat))
            by {
            assert forall|j: int| 0 <= j < km implies #[trigger] t.subrange(
                off + 2 + k0,
                off + 2 + k0 + km,
            )[j] == padded_seq(mq, (15 - z) as nat)[j] by {
                assert(t.subrange(off, t.len() as int)[2 + k0 + j] == t[off + 2 + k0 + j]);
                assert(expanded_seq(mag, e)[2 + k0 + j] == stripped_seq(mag, 15)[j]);
            }
        }
        assert(mq < 1_000_000_000_000_000_000) by {
            crate::bigfloat::lemma_pow10_monotone((15 - z) as nat, 15);
        }
        lemma_scan_block(t, off + 2 + k0, 0, 0 - k0, true, true, mq, (15 - z) as nat);
        assert(0 * pow10((15 - z) as nat) + mq == mq) by (nonlinear_arith);
        assert(exp_z(mag, e) == z);
        assert(0 - k0 - (15 - z) == z - 14 + e + ((-e - 1) - k0)) by {
            assert(k0 == (-e - 1) as nat);
        }
    }
}

/// Every character of a mantissa rendering is a digit or the point.
proof fn lemma_mant_chars(mag: int)
    requires
        SCALE <= mag < TEN_SCALE,
    ensures
        forall|j: int|
            0 <= j < mant_seq(mag).len() ==> is_digit(#[trigger] mant_seq(mag)[j]) || mant_seq(
                mag,
            )[j] == '.',
{
    pow10_vals();
    let s: int = SCALE as int;
    let first = mag / s;
    let frac = mag % s;
    lemma_mant_first_digit(mag);
    lemma_digit_char(first);
    if frac != 0 {
        let z = zc(frac, 14);
        vstd::arithmetic::div_mod::lemma_mod_bound(mag, s);
        lemma_stripped_padded(frac, 14);
        crate::bigfloat::lemma_pow10_monotone(0, z);
        vstd::arithmetic::div_mod::lemma_div_is_ordered(0, frac, pow10(z));
        lemma_padded_digits(frac / pow10(z), (14 - z) as nat);
        assert forall|j: int| 0 <= j < mant_seq(mag).len() implies is_digit(
            #[trigger] mant_seq(mag)[j],
        ) || mant_seq(mag)[j] == '.' by {
            if j >= 2 {
                assert(mant_seq(mag)[j] == stripped_seq(frac, 14)[j - 2]);
            }
        }
    }
}

/// Every character of an expanded rendering is a digit or the point.
proof fn lemma_expanded_chars(mag: int, e: int)
    requires
        SCALE <= mag < TEN_SCALE,
        -4 <= e <= 6,
    ensures
        forall|j: int|
            0 <= j < expanded_seq(mag, e).len() ==> is_digit(#[trigger] expanded_seq(mag, e)[j])
                || expanded_seq(mag, e)[j] == '.',
{
    pow10_vals();
    if e >= 0 {
        let d = pow10((14 - e) as nat);
        crate::bigfloat::lemma_pow10_monotone(0, (14 - e) as nat);
        let ip = mag / d;
        let fp = mag % d;
        vstd::arithmetic::div_mod::lemma_mod_bound(mag, d);
        lemma_ip_band(mag, e);
        lemma_dec_padded(ip);
        lemma_padded_digits(ip, dc(ip));
        if fp != 0 {
            let z = zc(fp, (14 - e) as nat);
            lemma_stripped_padded(fp, (14 - e) as nat);
            crate::bigfloat::lemma_pow10_monotone(0, z);
            vstd::arithmetic::div_mod::lemma_div_is_ordered(0, fp, pow10(z));
            lemma_padded_digits(fp / pow10(z), (14 - e - z) as nat);
            assert forall|j: int| 0 <= j < expanded_seq(mag, e).len() implies is_digit(
                #[trigger] expanded_seq(mag, e)[j],
            ) || expanded_seq(mag, e)[j] == '.' by {
                if j < dc(ip) {
                    assert(expanded_seq(mag, e)[j] == dec_seq(ip)[j]);
                } else if j >= dc(ip) + 1 {
                    assert(expanded_seq(mag, e)[j] == stripped_seq(fp, (14 - e) as nat)[j - dc(
                        ip,
                    ) - 1]);
                }
            }
        } else {
            assert forall|j: int| 0 <= j < expanded_seq(mag, e).len() implies is_digit(
                #[trigger] expanded_seq(mag, e)[j],
            ) || expanded_seq(mag, e)[j] == '.' by {
                assert(expanded_seq(mag, e)[j] == dec_seq(ip)[j]);
            }
        }
    } else {
        let k0 = (-e - 1) as nat;
        let z = zc(mag, 15);
        lemma_stripped_padded(mag, 15);
        crate::bigfloat::lemma_pow10_monotone(0, z);
        vstd::arithmetic::div_mod::lemma_div_is_ordered(0, mag, pow10(z));
        lemma_zeros_padded(k0);
        lemma_padded_digits(0, k0);
        lemma_padded_digits(mag / pow10(z), (15 - z) as nat);
        lemma_digit_char(0);
        assert forall|j: int| 0 <= j < expanded_seq(mag, e).len() implies is_digit(
            #[trigger] expanded_seq(mag, e)[j],
        ) || expanded_seq(mag, e)[j] == '.' by {
            if j >= 2 && j < 2 + k0 {
                assert(expanded_seq(mag, e)[j] == zeros_seq(k0)[j - 2]);
            } else if j >= 2 + k0 {
                assert(expanded_seq(mag, e)[j] == stripped_seq(mag, 15)[j - 2 - k0]);
            }
        }
    }
}

/// Every character of an integer rendering is a digit or the leading
/// minus sign.
proof fn lemma_int_chars(e: int)
    requires
        in_i64(e),
    ensures
        int_seq(e).len() >= 1,
        forall|j: int|
            0 <= j < int_seq(e).len() ==> is_digit(#[trigger] int_seq(e)[j]) || (j == 0 && int_seq(
                e,
            )[j] == '-'),
{
    let mag = iabs(e);
    lemma_dec_padded(mag);
    lemma_padded_digits(mag, dc(mag));
    assert forall|j: int| 0 <= j < int_seq(e).len() implies is_digit(#[trigger] int_seq(e)[j]) || (
    j == 0 && int_seq(e)[j] == '-') by {
        if e < 0 {
            if j >= 1 {
                assert(int_seq(e)[j] == dec_seq(mag)[j - 1]);
            }
        } else {
            assert(int_seq(e)[j] == dec_seq(mag)[j]);
        }
    }
}

/// A demote of a valid nested-exponent value keeps it nested.
proof fn lemma_demote_nested(b: BigFloat)
    requires
        wf(b),
        crate::bigfloat::nested_ok(b),
    ensures
        crate::arithmetic::spec_demote(b) == Exponent::Nested(Box::new(b)),
{
    pow10_vals();
    match b.mantissa {
        Mantissa::Units(u) => {
            match b.exponent {
                Exponent::Plain(e) => {
                    if 14 <= e <= 18 {
                        assert(e == 18);
                        assert(pow10(4) == 10000);
                    }
                },
                Exponent::Nested(_) => {},
            }
        },
        _ => {},
    }
}

/// Trimming fixes text with no whitespace at either end.
proof fn lemma_trim_id(s: Seq<char>)
    requires
        s.len() >= 1,
        !is_ws(s[0]),
        !is_ws(s[s.len() - 1]),
    ensures
        crate::convert::trim(s) == s,
{
    assert(crate::convert::ws_front(s, 0) == 0);
    assert(crate::convert::ws_back(s, s.len() as int) == s.len() as int);
    assert(s.subrange(0, s.len() as int) =~= s);
}

/// The text of a well-formed value is non-empty and has no whitespace at
/// either end.
proof fn lemma_text_edges(v: BigFloat)
    requires
        wf(v),
    ensures
        spec_text(v).len() >= 1,
        !is_ws(spec_text(v)[0]),
        !is_ws(spec_text(v)[spec_text(v).len() - 1]),
    decreases crate::arithmetic::height(v),
{
    pow10_vals();
    let t = spec_text(v);
    match v.mantissa {
        Mantissa::NaN => {},
        Mantissa::Inf(_) => {},
        Mantissa::Units(u) => {
            if u != 0 {
                let neg = u < 0;
                let mag = iabs(u as int);
                lemma_mant_first_digit(mag);
                lemma_digit_char(mag / (SCALE as int));
                match v.exponent {
                    Exponent::Plain(e) => {
                        if -4 <= e <= 6 {
                            lemma_expanded_chars(mag, e as int);
                            lemma_expanded_first(mag, e as int);
                            assert(t[0] == (sign_seq(neg) + expanded_seq(mag, e as int))[0]);
                            let x = expanded_seq(mag, e as int);
                            assert(t[t.len() - 1] == x[x.len() - 1]);
                        } else {
                            lemma_int_chars(e as int);
                            let x = int_seq(e as int);
                            assert(t[t.len() - 1] == x[x.len() - 1]);
                            assert(t[0] == (sign_seq(neg) + mant_seq(mag))[0]);
                            lemma_mant_chars(mag);
                        }
                    },
                    Exponent::Nested(_) => {
                        assert(t[t.len() - 1] == ')');
                        assert(t[0] == (sign_seq(neg) + mant_seq(mag))[0]);
                        lemma_mant_chars(mag);
                    },
                }
            }
        },
    }
}

/// Round trip on trimmed text: parsing the text of a well-formed value
/// reconstructs it exactly.
pub proof fn law_round_trip_at(v: BigFloat)
    requires
        wf(v),
    ensures
        spec_parse_at(spec_text(v)) == Ok::<BigFloat, crate::convert::TextError>(v),
    decreases crate::arithmetic::height(v),
{
    pow10_vals();
    let t = spec_text(v);
    match v.mantissa {
        Mantissa::NaN => {
            assert(crate::convert::tok_nan(t));
        },
        Mantissa::Inf(s) => {
            if s {
                assert(crate::convert::tok_neg_inf(t)) by {
                    assert(t.subrange(1, 2) =~= seq!['∞']);
                }
                assert(!crate::convert::tok_nan(t));
                assert(!crate::convert::tok_inf(t));
            } else {
                assert(crate::convert::tok_inf(t));
                assert(!crate::convert::tok_nan(t));
            }
        },
        Mantissa::Units(u) => {
            if u == 0 {
                assert(crate::convert::tok_zero(t));
                assert(!crate::convert::tok_nan(t));
                assert(!crate::convert::tok_inf(t));
                assert(!crate::convert::tok_neg_inf(t));
            } else {
                let neg = u < 0;
                let mag = iabs(u as int);
                lemma_mant_first_digit(mag);
                lemma_digit_char(mag / (SCALE as int));
                match v.exponent {
                    Exponent::Plain(e) => {
                        if -4 <= e <= 6 {
                            law_round_trip_band(v, u, e);
                        } else {
                            law_round_trip_sci(v, u, e);
                        }
                    },
                    Exponent::Nested(b) => {
                        law_round_trip_nested(v, u, *b);
                    },
                }
            }
        },
    }
}

/// No tokens match a text that begins with a minus sign or a digit and
/// continues with a digit.
proof fn lemma_no_tokens(t: Seq<char>)
    requires
        t.len() >= 1,
        (is_digit(t[0]) && t[0] != '0') || (t[0] == '-' && t.len() >= 2 && is_digit(t[1])),
    ensures
        !crate::convert::tok_nan(t),
        !crate::convert::tok_inf(t),
        !crate::convert::tok_neg_inf(t),
        !crate::convert::tok_zero(t),
{
    if t[0] == '-' {
        if crate::convert::tok_neg_inf(t) {
            let r = t.subrange(1, t.len() as int);
            assert(r[0] == t[1]);
        }
    }
}

/// The scientific case: `<sign><mantissa>e<exponent>`.
proof fn law_round_trip_sci(v: BigFloat, u: i64, e: i64)
    requires
        wf(v),
        v.mantissa == Mantissa::Units(u),
        u != 0,
        v.exponent == Exponent::Plain(e),
        !(-4 <= e <= 6),
    ensures
        spec_parse_at(spec_text(v)) == Ok::<BigFloat, crate::convert::TextError>(v),
{
    pow10_vals();
    let t = spec_text(v);
    let neg = u < 0;
    let mag = iabs(u as int);
    let ms = sign_seq(neg) + mant_seq(mag);
    let es = int_seq(e as int);
    let p = ms.len() as int;
    assert(t =~= ms + seq!['e'] + es);
    lemma_mant_first_digit(mag);
    lemma_digit_char(mag / (SCALE as int));
    lemma_mant_chars(mag);
    lemma_int_chars(e as int);
    assert(t[0] == ms[0]);
    if neg {
        assert(t[1] == mant_seq(mag)[0]);
    }
    lemma_no_tokens(t);
    // no spaces anywhere, so the nested form is not found
    assert forall|k: int| 0 <= k < t.len() implies #[trigger] t[k] != ' ' by {
        if k < p {
            lemma_sign_mant_char(neg, mag, k);
        } else if k > p {
            assert(t[k] == es[k - p - 1]);
        }
    }
    lemma_find_times_skip(t, 0, t.len() as int);
    // the first exponent marker is the separator
    assert forall|k: int| 0 <= k < p implies #[trigger] t[k] != 'e' && t[k] != 'E' by {
        lemma_sign_mant_char(neg, mag, k);
    }
    lemma_find_e_skip(t, 0, p);
    assert(t[p] == 'e');
    assert(find_e(t, 0) == p);
    assert(t.subrange(0, p) =~= ms);
    assert(t.subrange(p + 1, t.len() as int) =~= es);
    lemma_dec_parse_mant(neg, mag);
    lemma_int_parse_seq(e as int);
    let z = crate::roundtrip::mant_z(mag);
    let m = mag / pow10(z);
    lemma_mant_m_facts(mag);
    lemma_norm_exact(m, z, z + e as int);
    assert(crate::bigfloat::norm_pos(m, z + e as int) == (mag, e as int));
    let uu: int = if neg {
        -m
    } else {
        m
    };
    assert(crate::bigfloat::spec_norm(uu, (z - 14) + 14 + e as int) == v) by {
        assert(iabs(uu) == m);
        assert(in_i64(e as int));
        assert(crate::bigfloat::finite_plain(
            if neg {
                -mag
            } else {
                mag
            },
            e as int,
        ) == v);
    }
}

/// Any character of the signed mantissa rendering is a digit, the point,
/// or the leading minus sign.
proof fn lemma_sign_mant_char(neg: bool, mag: int, k: int)
    requires
        SCALE <= mag < TEN_SCALE,
        0 <= k < (sign_seq(neg) + mant_seq(mag)).len(),
    ensures
        ({
            let c = (sign_seq(neg) + mant_seq(mag))[k];
            (is_digit(c) || c == '.' || (k == 0 && c == '-')) && c != 'e' && c != 'E' && c != ' '
        }),
{
    lemma_mant_chars(mag);
    let ms = sign_seq(neg) + mant_seq(mag);
    if neg {
        if k >= 1 {
            assert(ms[k] == mant_seq(mag)[k - 1]);
        }
    } else {
        assert(ms[k] == mant_seq(mag)[k]);
    }
}

/// The banded mantissa, stripped of its trailing zeros, rebuilds it by an
/// exact power of ten.
proof fn lemma_mant_m_facts(mag: int)
    requires
        SCALE <= mag < TEN_SCALE,
    ensures
        ({
            let z = mant_z(mag);
            let m = mag / pow10(z);
            &&& z <= 14
            &&& 1 <= m
            &&& m * pow10(z) == mag
        }),
{
    pow10_vals();
    let s: int = SCALE as int;
    let frac = mag % s;
    vstd::arithmetic::div_mod::lemma_mod_bound(mag, s);
    let z = mant_z(mag);
    if frac == 0 {
        vstd::arithmetic::div_mod::lemma_fundamental_div_mod(mag, s);
        assert(z == 14);
        assert(mag / pow10(14) == mag / s);
        assert(mag / s >= 1) by {
            vstd::arithmetic::div_mod::lemma_div_multiples_vanish(1, s);
            vstd::arithmetic::div_mod::lemma_div_is_ordered(s, mag, s);
        }
        assert((mag / s) * s == mag) by (nonlinear_arith)
            requires
                mag == s * (mag / s) + frac,
                frac == 0,
        ;
    } else {
        assert(z == zc(frac, 14));
        lemma_stripped_padded(frac, 14);
        lemma_scan_mant_at_divis(mag);
        crate::bigfloat::lemma_pow10_monotone(0, z);
        crate::bigfloat::lemma_pow10_monotone(z, 14);
        vstd::arithmetic::div_mod::lemma_fundamental_div_mod(mag, pow10(z));
        assert((mag / pow10(z)) * pow10(z) == mag) by (nonlinear_arith)
            requires
                mag == pow10(z) * (mag / pow10(z)) + mag % pow10(z),
                mag % pow10(z) == 0,
        ;
        assert(mag / pow10(z) >= 1) by {
            vstd::arithmetic::div_mod::lemma_div_multiples_vanish(1, pow10(z));
            vstd::arithmetic::div_mod::lemma_div_is_ordered(pow10(z), mag, pow10(z));
        }
    }
}

/// The mantissa's trailing-zero frame divides it exactly.
proof fn lemma_scan_mant_at_divis(mag: int)
    requires
        SCALE <= mag < TEN_SCALE,
    ensures
        mag % pow10(mant_z(mag)) == 0,
{
    let t = mant_seq(mag);
    assert(t.subrange(0, t.len() as int) =~= mant_seq(mag));
    lemma_scan_mant_at(t, 0, mag);
}

/// The human-band case: `<sign><expanded decimal>`.
proof fn law_round_trip_band(v: BigFloat, u: i64, e: i64)
    requires
        wf(v),
        v.mantissa == Mantissa::Units(u),
        u != 0,
        v.exponent == Exponent::Plain(e),
        -4 <= e <= 6,
    ensures
        spec_parse_at(spec_text(v)) == Ok::<BigFloat, crate::convert::TextError>(v),
{
    pow10_vals();
    let t = spec_text(v);
    let neg = u < 0;
    let mag = iabs(u as int);
    let x = expanded_seq(mag, e as int);
    assert(t =~= sign_seq(neg) + x);
    lemma_expanded_chars(mag, e as int);
    lemma_expanded_first(mag, e as int);
    // token exclusion
    if e >= 0 {
        assert(t[0] == (sign_seq(neg) + x)[0]);
        if neg {
            assert(t[1] == x[0]);
        }
        lemma_no_tokens(t);
    } else {
        lemma_band_neg_tokens(v, u, e);
    }
    // no spaces, no exponent markers
    assert forall|k: int| 0 <= k < t.len() implies #[trigger] t[k] != ' ' && t[k] != 'e' && t[k]
        != 'E' by {
        let off: int = if neg {
            1
        } else {
            0
        };
        if k >= off {
            assert(t[k] == x[k - off]);
        }
    }
    lemma_find_times_skip(t, 0, t.len() as int);
    lemma_find_e_skip(t, 0, t.len() as int);
    // the whole text is one decimal number
    lemma_dec_parse_expanded(neg, mag, e as int);
    let z = exp_z(mag, e as int);
    let m = mag / pow10(z);
    lemma_exp_z_facts(mag, e as int);
    lemma_norm_exact(m, z, z + e as int);
    let uu: int = if neg {
        -m
    } else {
        m
    };
    assert(crate::bigfloat::spec_norm(uu, (z - 14 + e as int) + 14) == v) by {
        assert(iabs(uu) == m);
        assert(in_i64(e as int));
        assert(crate::bigfloat::norm_pos(m, z + e as int) == (mag, e as int));
        assert(crate::bigfloat::finite_plain(
            if neg {
                -mag
            } else {
                mag
            },
            e as int,
        ) == v);
    }
}

/// Token exclusion for the sub-one expanded shape, which begins with `0.`.
proof fn lemma_band_neg_tokens(v: BigFloat, u: i64, e: i64)
    requires
        wf(v),
        v.mantissa == Mantissa::Units(u),
        u != 0,
        v.exponent == Exponent::Plain(e),
        -4 <= e <= -1,
    ensures
        !crate::convert::tok_nan(spec_text(v)),
        !crate::convert::tok_inf(spec_text(v)),
        !crate::convert::tok_neg_inf(spec_text(v)),
        !crate::convert::tok_zero(spec_text(v)),
{
    pow10_vals();
    let t = spec_text(v);
    let neg = u < 0;
    let mag = iabs(u as int);
    let x = expanded_seq(mag, e as int);
    assert(t =~= sign_seq(neg) + x);
    lemma_expanded_chars(mag, e as int);
    lemma_expanded_first(mag, e as int);
    let off: int = if neg {
        1
    } else {
        0
    };
    assert(t[off] == x[0] && x[0] == '0');
    if neg {
        assert(t[0] == '-');
        if crate::convert::tok_neg_inf(t) {
            let r = t.subrange(1, t.len() as int);
            assert(r[0] == t[1]);
        }
    } else {
        // the text starts with `0.`, so only the `0.0` token could match;
        // its final character is the last stripped digit, which is not zero
        let z = zc(mag, 15);
        lemma_stripped_padded(mag, 15);
        lemma_strip_last(mag, 15);
        crate::bigfloat::lemma_pow10_monotone(0, z);
        vstd::arithmetic::div_mod::lemma_div_is_ordered(0, mag, pow10(z));
        lemma_padded_digits(mag / pow10(z), (15 - z) as nat);
        if crate::convert::tok_zero(t) {
            if t.len() == 3 {
                let str = stripped_seq(mag, 15);
                assert(t[2] == str[str.len() - 1]) by {
                    assert(t[2] == x[2]);
                }
                assert(str[str.len() - 1] == digit_char((mag / pow10(z)) % 10)) by {
                    assert(padded_seq(mag / pow10(z), (15 - z) as nat) == padded_seq(
                        (mag / pow10(z)) / 10,
                        (15 - z - 1) as nat,
                    ) + seq![digit_char((mag / pow10(z)) % 10)]);
                    lemma_padded_digits((mag / pow10(z)) / 10, (15 - z - 1) as nat);
                    vstd::arithmetic::div_mod::lemma_div_is_ordered(0, mag / pow10(z), 10);
                }
                vstd::arithmetic::div_mod::lemma_mod_bound(mag / pow10(z), 10);
                lemma_digit_char((mag / pow10(z)) % 10);
                assert(false);
            }
        }
    }
}

/// Facts about the expanded trailing-zero frame.
proof fn lemma_exp_z_facts(mag: int, e: int)
    requires
        SCALE <= mag < TEN_SCALE,
        -4 <= e <= 6,
    ensures
        ({
            let z = exp_z(mag, e);
            let m = mag / pow10(z);
            &&& z <= 14
            &&& 1 <= m
            &&& m * pow10(z) == mag
        }),
{
    pow10_vals();
    lemma_dec_parse_expanded(false, mag, e);
    let z = exp_z(mag, e);
    crate::bigfloat::lemma_pow10_monotone(0, z);
    crate::bigfloat::lemma_pow10_monotone(z, 14);
    vstd::arithmetic::div_mod::lemma_fundamental_div_mod(mag, pow10(z));
    assert((mag / pow10(z)) * pow10(z) == mag) by (nonlinear_arith)
        requires
            mag == pow10(z) * (mag / pow10(z)) + mag % pow10(z),
            mag % pow10(z) == 0,
    ;
    assert(mag / pow10(z) >= 1) by {
        vstd::arithmetic::div_mod::lemma_div_multiples_vanish(1, pow10(z));
        vstd::arithmetic::div_mod::lemma_div_is_ordered(pow10(z), mag, pow10(z));
    }
}

/// The nested-exponent case: `<sign><mantissa> × 10^(<nested>)`.
proof fn law_round_trip_nested(v: BigFloat, u: i64, b: BigFloat)
    requires
        wf(v),
        v.mantissa == Mantissa::Units(u),
        u != 0,
        v.exponent == Exponent::Nested(Box::new(b)),
        crate::arithmetic::height(b) < crate::arithmetic::height(v),
    ensures
        spec_parse_at(spec_text(v)) == Ok::<BigFloat, crate::convert::TextError>(v),
    decreases crate::arithmetic::height(v), 0int,
{
    pow10_vals();
    let t = spec_text(v);
    let neg = u < 0;
    let mag = iabs(u as int);
    let ms = sign_seq(neg) + mant_seq(mag);
    let inner = spec_text(b);
    let p = ms.len() as int;
    assert(t =~= ms + crate::convert::times_pat() + inner + seq![')']);
    lemma_mant_first_digit(mag);
    lemma_digit_char(mag / (SCALE as int));
    lemma_mant_chars(mag);
    assert(t[0] == ms[0]);
    if neg {
        assert(t[1] == mant_seq(mag)[0]);
    }
    lemma_no_tokens(t);
    // the marker is found exactly at the end of the mantissa
    assert forall|k: int| 0 <= k < p implies #[trigger] t[k] != ' ' by {
        lemma_sign_mant_char(neg, mag, k);
    }
    assert(crate::convert::times_at(t, p)) by {
        assert(t.subrange(p, p + 7) =~= crate::convert::times_pat());
    }
    lemma_find_times_skip(t, 0, p);
    assert(find_times(t, p) == p);
    assert(find_times(t, 0) == p);
    assert(t[t.len() - 1] == ')');
    lemma_text_edges(b);
    assert(inner.len() >= 1);
    assert(t.subrange(0, p) =~= ms);
    assert(t.subrange(p + 7, t.len() - 1) =~= inner);
    lemma_dec_parse_mant(neg, mag);
    law_round_trip_at(b);
    // assemble: the mantissa normalizes with no leftover shift, and the
    // nested exponent value demotes back to itself
    let z = mant_z(mag);
    let m = mag / pow10(z);
    lemma_mant_m_facts(mag);
    lemma_norm_exact(m, z, z as int);
    assert(crate::bigfloat::norm_pos(m, (z - 14) + 14) == (mag, 0int));
    assert(crate::bigfloat::spec_from_int(0) == crate::bigfloat::spec_zero());
    assert(crate::arithmetic::spec_add(crate::bigfloat::spec_zero(), b) == b);
    lemma_demote_nested(b);
    let uu: int = if neg {
        -m
    } else {
        m
    };
    assert(crate::convert::assemble(uu, z - 14, b) == v) by {
        assert(iabs(uu) == m);
        assert(uu != 0);
    }
}

/// Round trip: parsing the rendered text of any well-formed value gives
/// back exactly that value.
pub proof fn law_round_trip(v: BigFloat)
    requires
        wf(v),
    ensures
        spec_parse(spec_text(v)) == Ok::<BigFloat, crate::convert::TextError>(v),
{
    lemma_text_edges(v);
    lemma_trim_id(spec_text(v));
    law_round_trip_at(v);
}

} // verus!
