//! Textual form: rendering a value to text and parsing it back.
//!
//! Formatting: NaN and the infinities print as literal tokens; zero prints
//! as `0`; a plain exponent in the human-friendly band `-4..=6` prints as
//! the expanded decimal; otherwise scientific `<mantissa>e<exponent>`; a
//! nested exponent prints as `<mantissa> × 10^(<nested value>)`.

use vstd::prelude::*;

use crate::arithmetic::height;
use crate::bigfloat::BigFloat;
use crate::bigfloat::Exponent;
use crate::bigfloat::Mantissa;
use crate::bigfloat::SCALE;
use crate::bigfloat::TEN_SCALE;
use crate::bigfloat::iabs;
use crate::bigfloat::in_i64;
use crate::bigfloat::pow10;
use crate::bigfloat::pow10_vals;
use crate::bigfloat::wf;

verus! {

/// The decimal digit character for `d` in `0..=9`.
pub open spec fn digit_char(d: int) -> char {
    if d == 0 {
        '0'
    } else if d == 1 {
        '1'
    } else if d == 2 {
        '2'
    } else if d == 3 {
        '3'
    } else if d == 4 {
        '4'
    } else if d == 5 {
        '5'
    } else if d == 6 {
        '6'
    } else if d == 7 {
        '7'
    } else if d == 8 {
        '8'
    } else {
        '9'
    }
}

/// The decimal digits of a non-negative integer, most significant first.
pub open spec fn dec_seq(n: int) -> Seq<char>
    decreases n,
{
    if n < 10 {
        seq![digit_char(n)]
    } else {
        dec_seq(n / 10) + seq![digit_char(n % 10)]
    }
}

/// The decimal digits of an integer, with a leading minus sign when
/// negative.
pub open spec fn int_seq(n: int) -> Seq<char> {
    if n < 0 {
        seq!['-'] + dec_seq(-n)
    } else {
        dec_seq(n)
    }
}

/// `f` zero-padded to `k` digits.
pub open spec fn padded_seq(f: int, k: nat) -> Seq<char>
    decreases k,
{
    if k == 0 {
        Seq::empty()
    } else {
        padded_seq(f / 10, (k - 1) as nat) + seq![digit_char(f % 10)]
    }
}

/// `f` zero-padded to `k` digits with the trailing zeros removed.
pub open spec fn stripped_seq(f: int, k: nat) -> Seq<char>
    decreases k,
{
    if k == 0 {
        Seq::empty()
    } else if f % 10 == 0 {
        stripped_seq(f / 10, (k - 1) as nat)
    } else {
        padded_seq(f, k)
    }
}

/// The mantissa magnitude `mag` (a banded unit count) as decimal text:
/// the leading digit, then a point and the fraction digits unless they are
/// all zero.
pub open spec fn mant_seq(mag: int) -> Seq<char> {
    let first = mag / (SCALE as int);
    let frac = mag % (SCALE as int);
    if frac == 0 {
        seq![digit_char(first)]
    } else {
        seq![digit_char(first)] + seq!['.'] + stripped_seq(frac, 14)
    }
}

/// The mantissa magnitude expanded at exponent `e` in `-4..=6`: the full
/// decimal value without scientific notation.
pub open spec fn expanded_seq(mag: int, e: int) -> Seq<char> {
    if e >= 0 {
        let ip = mag / pow10((14 - e) as nat);
        let fp = mag % pow10((14 - e) as nat);
        if fp == 0 {
            dec_seq(ip)
        } else {
            dec_seq(ip) + seq!['.'] + stripped_seq(fp, (14 - e) as nat)
        }
    } else {
        seq!['0', '.'] + zeros_seq((-e - 1) as nat) + stripped_seq(mag, 15)
    }
}

/// `k` zero characters.
pub open spec fn zeros_seq(k: nat) -> Seq<char>
    decreases k,
{
    if k == 0 {
        Seq::empty()
    } else {
        seq!['0'] + zeros_seq((k - 1) as nat)
    }
}

/// The leading minus sign of a negative value.
pub open spec fn sign_seq(neg: bool) -> Seq<char> {
    if neg {
        seq!['-']
    } else {
        Seq::empty()
    }
}

/// The text of a value. NaN and the infinities are literal tokens; zero is
/// `0`; a plain exponent inside `-4..=6` prints expanded; other plain
/// exponents print as `<mantissa>e<exponent>`; a nested exponent prints as
/// `<mantissa> × 10^(<nested>)`, the nested value rendered recursively.
pub open spec fn spec_text(v: BigFloat) -> Seq<char>
    decreases height(v),
{
    match v.mantissa {
        Mantissa::NaN => seq!['N', 'a', 'N'],
        Mantissa::Inf(s) => {
            if s {
                seq!['-', '∞']
            } else {
                seq!['∞']
            }
        },
        Mantissa::Units(u) => {
            if u == 0 {
                seq!['0']
            } else {
                let neg = u < 0;
                let mag = iabs(u as int);
                match v.exponent {
                    Exponent::Plain(e) => {
                        if -4 <= e <= 6 {
                            sign_seq(neg) + expanded_seq(mag, e as int)
                        } else {
                            sign_seq(neg) + mant_seq(mag) + seq!['e'] + int_seq(e as int)
                        }
                    },
                    Exponent::Nested(b) => sign_seq(neg) + mant_seq(mag) + seq![
                        ' ',
                        '×',
                        ' ',
                        '1',
                        '0',
                        '^',
                        '(',
                    ] + spec_text(*b) + seq![')'],
                }
            }
        },
    }
}

/// A parse failure, naming the substring that failed as the original text
/// had it.
#[derive(Debug, PartialEq, Eq)]
pub enum ParseError {
    /// The input was empty (after trimming).
    Empty,
    /// The part before the exponent marker is not a decimal number.
    InvalidMantissa(String),
    /// The part after the exponent marker is neither an integer nor a
    /// parsable finite value.
    InvalidExponent(String),
    /// The input fits no rule of the grammar.
    Unrecognized(String),
}

/// The spec-level mirror of [`ParseError`], its payloads as character
/// sequences.
pub enum TextError {
    Empty,
    InvalidMantissa(Seq<char>),
    InvalidExponent(Seq<char>),
    Unrecognized(Seq<char>),
}

/// The spec-level view of a [`ParseError`].
pub open spec fn err_view(e: ParseError) -> TextError {
    match e {
        ParseError::Empty => TextError::Empty,
        ParseError::InvalidMantissa(s) => TextError::InvalidMantissa(s@),
        ParseError::InvalidExponent(s) => TextError::InvalidExponent(s@),
        ParseError::Unrecognized(s) => TextError::Unrecognized(s@),
    }
}

/// ASCII whitespace trimmed from both ends before parsing.
pub open spec fn is_ws(c: char) -> bool {
    c == ' ' || c == '\t' || c == '\n' || c == '\r'
}

/// A decimal digit.
pub open spec fn is_digit(c: char) -> bool {
    c == '0' || c == '1' || c == '2' || c == '3' || c == '4' || c == '5' || c == '6' || c == '7'
        || c == '8' || c == '9'
}

/// The value of a decimal digit character.
pub open spec fn digit_val(c: char) -> int {
    if c == '0' {
        0
    } else if c == '1' {
        1
    } else if c == '2' {
        2
    } else if c == '3' {
        3
    } else if c == '4' {
        4
    } else if c == '5' {
        5
    } else if c == '6' {
        6
    } else if c == '7' {
        7
    } else if c == '8' {
        8
    } else {
        9
    }
}

/// Case-insensitive match against a lowercase/uppercase letter pair.
pub open spec fn eqi(c: char, lo: char, up: char) -> bool {
    c == lo || c == up
}

/// The number of leading whitespace characters.
pub open spec fn ws_front(s: Seq<char>, i: int) -> int
    decreases s.len() - i,
{
    if 0 <= i < s.len() && is_ws(s[i]) {
        ws_front(s, i + 1)
    } else {
        i
    }
}

/// The index one past the last non-whitespace character, scanning back.
pub open spec fn ws_back(s: Seq<char>, j: int) -> int
    decreases j,
{
    if 0 < j <= s.len() && is_ws(s[j - 1]) {
        ws_back(s, j - 1)
    } else {
        j
    }
}

/// The input with ASCII whitespace removed from both ends.
pub open spec fn trim(s: Seq<char>) -> Seq<char> {
    let a = ws_front(s, 0);
    let b = ws_back(s, s.len() as int);
    if a <= b {
        s.subrange(a, b)
    } else {
        Seq::empty()
    }
}

/// The `nan` token, case-insensitive.
pub open spec fn tok_nan(t: Seq<char>) -> bool {
    t.len() == 3 && eqi(t[0], 'n', 'N') && eqi(t[1], 'a', 'A') && eqi(t[2], 'n', 'N')
}

/// The `inf`, `infinity` or `∞` token, case-insensitive.
pub open spec fn tok_inf(t: Seq<char>) -> bool {
    (t.len() == 1 && t[0] == '∞') || (t.len() == 3 && eqi(t[0], 'i', 'I') && eqi(t[1], 'n', 'N')
        && eqi(t[2], 'f', 'F')) || (t.len() == 8 && eqi(t[0], 'i', 'I') && eqi(t[1], 'n', 'N')
        && eqi(t[2], 'f', 'F') && eqi(t[3], 'i', 'I') && eqi(t[4], 'n', 'N') && eqi(t[5], 'i', 'I')
        && eqi(t[6], 't', 'T') && eqi(t[7], 'y', 'Y'))
}

/// The negative-infinity tokens: a minus sign before an infinity token.
pub open spec fn tok_neg_inf(t: Seq<char>) -> bool {
    t.len() >= 1 && t[0] == '-' && tok_inf(t.subrange(1, t.len() as int))
}

/// The `0` and `0.0` tokens.
pub open spec fn tok_zero(t: Seq<char>) -> bool {
    (t.len() == 1 && t[0] == '0') || (t.len() == 3 && t[0] == '0' && t[1] == '.' && t[2] == '0')
}

/// Scan the digits of a decimal number from index `i`: an optional single
/// point, digits accumulated exactly up to 19 significant digits and
/// counted into the scale beyond that. Returns the accumulated magnitude
/// and the power-of-ten scale, or nothing if a foreign character appears
/// or no digit at all.
pub open spec fn scan_mant(t: Seq<char>, i: int, acc: int, sc: int, dot: bool, any: bool) -> Option<
    (int, int),
>
    decreases t.len() - i,
{
    if i < 0 || i >= t.len() {
        if any {
            Some((acc, sc))
        } else {
            None
        }
    } else {
        let c = t[i];
        if c == '.' {
            if dot {
                None
            } else {
                scan_mant(t, i + 1, acc, sc, true, any)
            }
        } else if is_digit(c) {
            if acc < 1_000_000_000_000_000_000 {
                scan_mant(
                    t,
                    i + 1,
                    acc * 10 + digit_val(c),
                    if dot {
                        sc - 1
                    } else {
                        sc
                    },
                    dot,
                    true,
                )
            } else {
                scan_mant(
                    t,
                    i + 1,
                    acc,
                    if dot {
                        sc
                    } else {
                        sc + 1
                    },
                    dot,
                    true,
                )
            }
        } else {
            None
        }
    }
}

/// Parse a decimal number: optional sign, digits, optionally one point.
/// Returns `(units, scale)` with the value `units × 10^scale`.
pub open spec fn dec_parse(t: Seq<char>) -> Option<(int, int)> {
    if t.len() == 0 {
        None
    } else if t[0] == '-' {
        match scan_mant(t, 1, 0, 0, false, false) {
            Some((u, sc)) => Some((-u, sc)),
            None => None,
        }
    } else if t[0] == '+' {
        scan_mant(t, 1, 0, 0, false, false)
    } else {
        scan_mant(t, 0, 0, 0, false, false)
    }
}

/// Scan an unsigned integer from index `i`, refusing magnitudes past
/// `2^63` (such an exponent cannot be plain and takes the recursive path).
pub open spec fn scan_int(t: Seq<char>, i: int, acc: int) -> Option<int>
    decreases t.len() - i,
{
    if i < 0 || i >= t.len() {
        Some(acc)
    } else if is_digit(t[i]) {
        if acc * 10 + digit_val(t[i]) <= 9_223_372_036_854_775_808 {
            scan_int(t, i + 1, acc * 10 + digit_val(t[i]))
        } else {
            None
        }
    } else {
        None
    }
}

/// Parse a plain signed integer exponent; `None` when malformed or too
/// large in magnitude for the plain width.
pub open spec fn int_parse(t: Seq<char>) -> Option<int> {
    if t.len() == 0 {
        None
    } else if t[0] == '-' || t[0] == '+' {
        if t.len() == 1 {
            None
        } else {
            match scan_int(t, 1, 0) {
                Some(m) => Some(
                    if t[0] == '-' {
                        -m
                    } else {
                        m
                    },
                ),
                None => None,
            }
        }
    } else {
        scan_int(t, 0, 0)
    }
}

/// The first index at or after `i` holding `e` or `E` (the length if none).
pub open spec fn find_e(t: Seq<char>, i: int) -> int
    decreases t.len() - i,
{
    if i < 0 || i >= t.len() {
        t.len() as int
    } else if t[i] == 'e' || t[i] == 'E' {
        i
    } else {
        find_e(t, i + 1)
    }
}

/// The seven characters the formatter places between a mantissa and a
/// nested exponent.
pub open spec fn times_pat() -> Seq<char> {
    seq![' ', '×', ' ', '1', '0', '^', '(']
}

/// Whether the nested-exponent pattern starts at index `i`.
pub open spec fn times_at(t: Seq<char>, i: int) -> bool {
    0 <= i && i + 7 <= t.len() && t.subrange(i, i + 7) == times_pat()
}

/// The first index at or after `i` where the nested-exponent pattern
/// starts (the length if none).
pub open spec fn find_times(t: Seq<char>, i: int) -> int
    decreases t.len() - i,
{
    if i < 0 || i >= t.len() {
        t.len() as int
    } else if times_at(t, i) {
        i
    } else {
        find_times(t, i + 1)
    }
}

/// Assemble a parsed value from decimal mantissa units and scale together
/// with an exponent value parsed recursively: the mantissa is normalized
/// and the normalization exponent added to the exponent value, the result
/// demoted to a plain exponent when it fits.
pub open spec fn assemble(u: int, sc: int, ev: BigFloat) -> BigFloat {
    if u == 0 {
        crate::bigfloat::spec_zero()
    } else {
        let (n, s1) = crate::bigfloat::norm_pos(iabs(u), sc + 14);
        BigFloat {
            mantissa: Mantissa::Units(
                (if u > 0 {
                    n
                } else {
                    -n
                }) as i64,
            ),
            exponent: crate::arithmetic::spec_demote(
                crate::arithmetic::spec_add(crate::bigfloat::spec_from_int(s1), ev),
            ),
        }
    }
}

/// Parse a trimmed input. The grammar, in order: the literal tokens; the
/// formatter's nested-exponent form `<mantissa> × 10^(<value>)`; a decimal
/// number; `<mantissa>e<exponent>`, the exponent a plain integer when it
/// fits and otherwise itself parsed recursively as a value (which is what
/// admits nested forms such as `1e1e100`); anything else fails.
pub open spec fn spec_parse_at(t: Seq<char>) -> Result<BigFloat, TextError>
    decreases t.len(), 2int,
{
    if t.len() == 0 {
        Err(TextError::Empty)
    } else if tok_nan(t) {
        Ok(BigFloat { mantissa: Mantissa::NaN, exponent: Exponent::Plain(0) })
    } else if tok_inf(t) {
        Ok(BigFloat { mantissa: Mantissa::Inf(false), exponent: Exponent::Plain(0) })
    } else if tok_neg_inf(t) {
        Ok(BigFloat { mantissa: Mantissa::Inf(true), exponent: Exponent::Plain(0) })
    } else if tok_zero(t) {
        Ok(crate::bigfloat::spec_zero())
    } else {
        let j = find_times(t, 0);
        if 0 <= j && j < t.len() && t[t.len() - 1] == ')' && j + 7 <= t.len() - 1 {
            spec_parse_times(t, j)
        } else {
            let i = find_e(t, 0);
            if i >= t.len() || i < 0 {
                spec_parse_plain(t)
            } else {
                spec_parse_e(t, i)
            }
        }
    }
}

/// The formatter's nested form: mantissa before the `× 10^(` marker at `j`,
/// the exponent value between the marker and the closing parenthesis.
pub open spec fn spec_parse_times(t: Seq<char>, j: int) -> Result<BigFloat, TextError>
    decreases t.len(), 1int,
{
    match dec_parse(t.subrange(0, j)) {
        None => Err(TextError::InvalidMantissa(t.subrange(0, j))),
        Some((u, sc)) => {
            let inner = t.subrange(j + 7, t.len() - 1);
            if inner.len() < t.len() {
                match spec_parse_at(inner) {
                    Ok(ev) => {
                        if ev.mantissa is Units {
                            Ok(assemble(u, sc, ev))
                        } else {
                            Err(TextError::InvalidExponent(inner))
                        }
                    },
                    Err(_) => Err(TextError::InvalidExponent(inner)),
                }
            } else {
                Err(TextError::InvalidExponent(inner))
            }
        },
    }
}

/// No exponent marker at all: the whole text must be a decimal number.
pub open spec fn spec_parse_plain(t: Seq<char>) -> Result<BigFloat, TextError> {
    match dec_parse(t) {
        Some((u, sc)) => Ok(crate::bigfloat::spec_norm(u, sc + 14)),
        None => Err(TextError::Unrecognized(t)),
    }
}

/// Scientific form split at the exponent marker `i`: the mantissa before
/// it, the exponent after it — a plain integer when it fits, otherwise
/// parsed recursively as a value.
pub open spec fn spec_parse_e(t: Seq<char>, i: int) -> Result<BigFloat, TextError>
    decreases t.len(), 1int,
{
    if 0 <= i < t.len() {
        let ms = t.subrange(0, i);
        let es = t.subrange(i + 1, t.len() as int);
        match dec_parse(ms) {
            None => Err(TextError::InvalidMantissa(ms)),
            Some((u, sc)) => {
                match int_parse(es) {
                    Some(p) => {
                        if in_i64(p) {
                            Ok(crate::bigfloat::spec_norm(u, sc + 14 + p))
                        } else {
                            spec_parse_exp_nested(u, sc, es)
                        }
                    },
                    None => spec_parse_exp_nested(u, sc, es),
                }
            },
        }
    } else {
        spec_parse_plain(t)
    }
}

/// The recursive-exponent path: parse the exponent substring as a value of
/// its own; only a finite exponent value is accepted.
pub open spec fn spec_parse_exp_nested(u: int, sc: int, es: Seq<char>) -> Result<
    BigFloat,
    TextError,
>
    decreases es.len(), 3int,
{
    match spec_parse_at(es) {
        Ok(ev) => {
            if ev.mantissa is Units {
                Ok(assemble(u, sc, ev))
            } else {
                Err(TextError::InvalidExponent(es))
            }
        },
        Err(_) => Err(TextError::InvalidExponent(es)),
    }
}

/// Parse after trimming; the public entry point's specification.
pub open spec fn spec_parse(s: Seq<char>) -> Result<BigFloat, TextError> {
    spec_parse_at(trim(s))
}

/// Relies on `String::push`: appends exactly the one character.
#[verifier::external_body]
fn push_char(s: &mut String, c: char)
    ensures
        final(s)@ == old(s)@ + seq![c],
{
    s.push(c);
}

/// The characters of a slice of `v` as a `String`.
fn range_string(v: &Vec<char>, a: usize, b: usize) -> (r: String)
    requires
        a <= b <= v@.len(),
    ensures
        r@ == v@.subrange(a as int, b as int),
{
    let mut out = String::new();
    let mut i: usize = a;
    while i < b
        invariant
            a <= i <= b <= v@.len(),
            out@ == v@.subrange(a as int, i as int),
        decreases b - i,
    {
        push_char(&mut out, v[i]);
        i = i + 1;
        proof {
            assert(out@ =~= v@.subrange(a as int, i as int));
        }
    }
    out
}

/// `is_ws`, executably.
fn is_ws_exec(c: char) -> (r: bool)
    ensures
        r == is_ws(c),
{
    c == ' ' || c == '\t' || c == '\n' || c == '\r'
}

/// `is_digit`, executably.
fn is_digit_exec(c: char) -> (r: bool)
    ensures
        r == is_digit(c),
{
    c == '0' || c == '1' || c == '2' || c == '3' || c == '4' || c == '5' || c == '6' || c == '7'
        || c == '8' || c == '9'
}

/// `digit_val`, executably.
fn digit_val_exec(c: char) -> (r: u64)
    ensures
        r as int == digit_val(c),
        r <= 9,
{
    if c == '0' {
        0
    } else if c == '1' {
        1
    } else if c == '2' {
        2
    } else if c == '3' {
        3
    } else if c == '4' {
        4
    } else if c == '5' {
        5
    } else if c == '6' {
        6
    } else if c == '7' {
        7
    } else if c == '8' {
        8
    } else {
        9
    }
}

/// The bounds of the trimmed text inside `v`: trailing-whitespace scan and
/// leading-whitespace scan.
fn trim_bounds(v: &Vec<char>) -> (r: (usize, usize))
    ensures
        ({
            let a = r.0;
            let b = r.1;
            &&& a <= b <= v@.len()
            &&& trim(v@) == v@.subrange(a as int, b as int)
        }),
{
    let n = v.len();
    let mut a: usize = 0;
    while a < n && is_ws_exec(v[a])
        invariant
            0 <= a <= n,
            n == v@.len(),
            ws_front(v@, 0) == ws_front(v@, a as int),
        decreases n - a,
    {
        a = a + 1;
    }
    proof {
        assert(ws_front(v@, a as int) == a as int);
    }
    let mut b: usize = n;
    while b > 0 && is_ws_exec(v[b - 1])
        invariant
            0 <= b <= n,
            n == v@.len(),
            ws_back(v@, n as int) == ws_back(v@, b as int),
        decreases b,
    {
        b = b - 1;
    }
    proof {
        assert(ws_back(v@, b as int) == b as int);
    }
    if a <= b {
        (a, b)
    } else {
        proof {
            assert(trim(v@) =~= v@.subrange(a as int, a as int));
        }
        (a, a)
    }
}

/// `tok_nan` on a slice of `v`, executably.
fn tok_nan_exec(v: &Vec<char>, a: usize, b: usize) -> (r: bool)
    requires
        a <= b <= v@.len(),
    ensures
        r == tok_nan(v@.subrange(a as int, b as int)),
{
    b - a == 3 && (v[a] == 'n' || v[a] == 'N') && (v[a + 1] == 'a' || v[a + 1] == 'A') && (v[a + 2]
        == 'n' || v[a + 2] == 'N')
}

/// `tok_inf` on a slice of `v`, executably.
fn tok_inf_exec(v: &Vec<char>, a: usize, b: usize) -> (r: bool)
    requires
        a <= b <= v@.len(),
    ensures
        r == tok_inf(v@.subrange(a as int, b as int)),
{
    if b - a == 1 {
        v[a] == '∞'
    } else if b - a == 3 {
        (v[a] == 'i' || v[a] == 'I') && (v[a + 1] == 'n' || v[a + 1] == 'N') && (v[a + 2] == 'f'
            || v[a + 2] == 'F')
    } else if b - a == 8 {
        (v[a] == 'i' || v[a] == 'I') && (v[a + 1] == 'n' || v[a + 1] == 'N') && (v[a + 2] == 'f'
            || v[a + 2] == 'F') && (v[a + 3] == 'i' || v[a + 3] == 'I') && (v[a + 4] == 'n' || v[a
            + 4] == 'N') && (v[a + 5] == 'i' || v[a + 5] == 'I') && (v[a + 6] == 't' || v[a + 6]
            == 'T') && (v[a + 7] == 'y' || v[a + 7] == 'Y')
    } else {
        false
    }
}

/// `tok_neg_inf` on a slice of `v`, executably.
fn tok_neg_inf_exec(v: &Vec<char>, a: usize, b: usize) -> (r: bool)
    requires
        a <= b <= v@.len(),
    ensures
        r == tok_neg_inf(v@.subrange(a as int, b as int)),
{
    if b - a >= 1 && v[a] == '-' {
        let inner = tok_inf_exec(v, a + 1, b);
        proof {
            assert(v@.subrange(a as int + 1, b as int) =~= v@.subrange(a as int, b as int).subrange(
                1,
                (b - a) as int,
            ));
        }
        inner
    } else {
        false
    }
}

/// `tok_zero` on a slice of `v`, executably.
fn tok_zero_exec(v: &Vec<char>, a: usize, b: usize) -> (r: bool)
    requires
        a <= b <= v@.len(),
    ensures
        r == tok_zero(v@.subrange(a as int, b as int)),
{
    (b - a == 1 && v[a] == '0') || (b - a == 3 && v[a] == '0' && v[a + 1] == '.' && v[a + 2] == '0')
}

/// `find_e` on a slice of `v`, executably; returns an absolute index.
fn find_e_exec(v: &Vec<char>, a: usize, b: usize) -> (r: usize)
    requires
        a <= b <= v@.len(),
    ensures
        a <= r <= b,
        r as int - a as int == find_e(v@.subrange(a as int, b as int), 0),
{
    let ghost t = v@.subrange(a as int, b as int);
    let mut j: usize = a;
    while j < b && !(v[j] == 'e' || v[j] == 'E')
        invariant
            a <= j <= b <= v@.len(),
            t == v@.subrange(a as int, b as int),
            find_e(t, 0) == find_e(t, j as int - a as int),
        decreases b - j,
    {
        j = j + 1;
    }
    j
}

/// Whether the nested-exponent pattern starts at absolute index `j`.
fn times_at_exec(v: &Vec<char>, a: usize, b: usize, j: usize) -> (r: bool)
    requires
        a <= j,
        a <= b <= v@.len(),
        j < b,
    ensures
        r == times_at(v@.subrange(a as int, b as int), j as int - a as int),
{
    let ghost t = v@.subrange(a as int, b as int);
    let ghost i = j as int - a as int;
    if b - j >= 7 && v[j] == ' ' && v[j + 1] == '×' && v[j + 2] == ' ' && v[j + 3] == '1' && v[j
        + 4] == '0' && v[j + 5] == '^' && v[j + 6] == '(' {
        proof {
            assert(t.subrange(i, i + 7) =~= times_pat());
        }
        true
    } else {
        proof {
            if i + 7 <= t.len() {
                if t.subrange(i, i + 7) == times_pat() {
                    assert(t.subrange(i, i + 7)[0] == t[i]);
                    assert(t.subrange(i, i + 7)[1] == t[i + 1]);
                    assert(t.subrange(i, i + 7)[2] == t[i + 2]);
                    assert(t.subrange(i, i + 7)[3] == t[i + 3]);
                    assert(t.subrange(i, i + 7)[4] == t[i + 4]);
                    assert(t.subrange(i, i + 7)[5] == t[i + 5]);
                    assert(t.subrange(i, i + 7)[6] == t[i + 6]);
                    assert(false);
                }
            }
        }
        false
    }
}

/// `find_times` on a slice of `v`, executably; returns an absolute index.
fn find_times_exec(v: &Vec<char>, a: usize, b: usize) -> (r: usize)
    requires
        a <= b <= v@.len(),
    ensures
        a <= r <= b,
        r as int - a as int == find_times(v@.subrange(a as int, b as int), 0),
{
    let ghost t = v@.subrange(a as int, b as int);
    let mut j: usize = a;
    loop
        invariant
            a <= j <= b <= v@.len(),
            t == v@.subrange(a as int, b as int),
            find_times(t, 0) == find_times(t, j as int - a as int),
        decreases b - j,
    {
        if j >= b {
            return j;
        }
        if times_at_exec(v, a, b, j) {
            return j;
        }
        j = j + 1;
    }
}

/// `scan_mant` on a slice of `v`, executably.
fn scan_mant_exec(v: &Vec<char>, a: usize, b: usize, start: usize) -> (r: Option<(i128, i128)>)
    requires
        a <= start <= b <= v@.len(),
    ensures
        ({
            let t = v@.subrange(a as int, b as int);
            let s = scan_mant(t, start as int - a as int, 0, 0, false, false);
            match r {
                Some(p) => s == Some((p.0 as int, p.1 as int)) && iabs(p.0 as int) < pow10(19)
                    && iabs(p.1 as int) <= v@.len(),
                None => s is None,
            }
        }),
{
    let ghost t = v@.subrange(a as int, b as int);
    let mut j: usize = start;
    let mut acc: i128 = 0;
    let mut sc: i128 = 0;
    let mut dot: bool = false;
    let mut any: bool = false;
    proof {
        pow10_vals();
    }
    loop
        invariant
            a <= start <= j <= b <= v@.len(),
            t == v@.subrange(a as int, b as int),
            scan_mant(t, start as int - a as int, 0, 0, false, false) == scan_mant(
                t,
                j as int - a as int,
                acc as int,
                sc as int,
                dot,
                any,
            ),
            0 <= acc < 10_000_000_000_000_000_000i128,
            iabs(sc as int) <= j - start,
        decreases b - j,
    {
        proof {
            pow10_vals();
        }
        if j >= b {
            if any {
                return Some((acc, sc));
            } else {
                return None;
            }
        }
        let c = v[j];
        if c == '.' {
            if dot {
                return None;
            }
            dot = true;
        } else if is_digit_exec(c) {
            if acc < 1_000_000_000_000_000_000i128 {
                acc = acc * 10 + (digit_val_exec(c) as i128);
                if dot {
                    sc = sc - 1;
                }
            } else {
                if !dot {
                    sc = sc + 1;
                }
            }
            any = true;
        } else {
            return None;
        }
        j = j + 1;
    }
}

/// `scan_int` on a slice of `v`, executably.
fn scan_int_exec(v: &Vec<char>, a: usize, b: usize, start: usize) -> (r: Option<u64>)
    requires
        a <= start <= b <= v@.len(),
    ensures
        ({
            let t = v@.subrange(a as int, b as int);
            let s = scan_int(t, start as int - a as int, 0);
            match r {
                Some(m) => s == Some(m as int),
                None => s is None,
            }
        }),
{
    let ghost t = v@.subrange(a as int, b as int);
    let mut j: usize = start;
    let mut acc: u64 = 0;
    loop
        invariant
            a <= start <= j <= b <= v@.len(),
            t == v@.subrange(a as int, b as int),
            scan_int(t, start as int - a as int, 0) == scan_int(t, j as int - a as int, acc as int),
            acc <= 9_223_372_036_854_775_808u64,
        decreases b - j,
    {
        if j >= b {
            return Some(acc);
        }
        let c = v[j];
        if !is_digit_exec(c) {
            return None;
        }
        let d = digit_val_exec(c);
        let next: u128 = (acc as u128) * 10 + (d as u128);
        if next > 9_223_372_036_854_775_808u128 {
            return None;
        }
        acc = next as u64;
        j = j + 1;
    }
}

/// `dec_parse` on a slice of `v`, executably.
fn dec_parse_exec(v: &Vec<char>, a: usize, b: usize) -> (r: Option<(i128, i128)>)
    requires
        a <= b <= v@.len(),
    ensures
        ({
            let s = dec_parse(v@.subrange(a as int, b as int));
            match r {
                Some(p) => s == Some((p.0 as int, p.1 as int)) && iabs(p.0 as int) < pow10(19)
                    && iabs(p.1 as int) <= v@.len(),
                None => s is None,
            }
        }),
{
    proof {
        pow10_vals();
    }
    if b == a {
        return None;
    }
    if v[a] == '-' {
        match scan_mant_exec(v, a, b, a + 1) {
            Some((u, sc)) => Some((-u, sc)),
            None => None,
        }
    } else if v[a] == '+' {
        scan_mant_exec(v, a, b, a + 1)
    } else {
        scan_mant_exec(v, a, b, a)
    }
}

/// `int_parse` on a slice of `v`, executably.
fn int_parse_exec(v: &Vec<char>, a: usize, b: usize) -> (r: Option<i128>)
    requires
        a <= b <= v@.len(),
    ensures
        ({
            let s = int_parse(v@.subrange(a as int, b as int));
            match r {
                Some(p) => s == Some(p as int),
                None => s is None,
            }
        }),
{
    if b == a {
        return None;
    }
    if v[a] == '-' || v[a] == '+' {
        if b - a == 1 {
            return None;
        }
        match scan_int_exec(v, a, b, a + 1) {
            Some(m) => {
                if v[a] == '-' {
                    Some(-(m as i128))
                } else {
                    Some(m as i128)
                }
            },
            None => None,
        }
    } else {
        match scan_int_exec(v, a, b, a) {
            Some(m) => Some(m as i128),
            None => None,
        }
    }
}

/// `assemble`, executably.
fn assemble_exec(u: i128, sc: i128, ev: BigFloat) -> (r: BigFloat)
    requires
        wf(ev),
        ev.mantissa is Units,
        iabs(u as int) < pow10(19),
        iabs(sc as int) <= 20_000_000_000_000_000_000,
    ensures
        r == assemble(u as int, sc as int, ev),
        wf(r),
{
    proof {
        pow10_vals();
    }
    if u == 0 {
        return BigFloat::zero();
    }
    let mag: u128 = if u < 0 {
        (-u) as u128
    } else {
        u as u128
    };
    let (n, s0) = crate::bigfloat::norm_units_exec(mag);
    proof {
        crate::bigfloat::lemma_norm_pos_offset(mag as int, sc as int + 14);
    }
    let s1: i128 = sc + 14 + (s0 as i128);
    let sv = crate::bigfloat::from_i128(s1);
    let sum = sv.add(&ev);
    let ex = crate::arithmetic::demote(sum);
    let units: i64 = if u < 0 {
        -(n as i64)
    } else {
        n as i64
    };
    BigFloat { mantissa: Mantissa::Units(units), exponent: ex }
}

/// `spec_parse_plain` on a slice of `v`, executably.
fn parse_plain_exec(v: &Vec<char>, a: usize, b: usize) -> (r: Result<BigFloat, ParseError>)
    requires
        a <= b <= v@.len(),
    ensures
        ({
            let s = spec_parse_plain(v@.subrange(a as int, b as int));
            match r {
                Ok(val) => s == Ok::<BigFloat, TextError>(val) && wf(val),
                Err(e) => s == Err::<BigFloat, TextError>(err_view(e)),
            }
        }),
{
    let vlen: usize = v.len();
    proof {
        pow10_vals();
        assert(vlen as int == v@.len());
    }
    match dec_parse_exec(v, a, b) {
        Some((u, sc)) => Ok(crate::bigfloat::norm_at(u, sc + 14)),
        None => Err(ParseError::Unrecognized(range_string(v, a, b))),
    }
}

/// `spec_parse_exp_nested` on a slice of `v`, executably.
fn parse_exp_nested_exec(v: &Vec<char>, a: usize, b: usize, u: i128, sc: i128) -> (r: Result<
    BigFloat,
    ParseError,
>)
    requires
        a <= b <= v@.len(),
        iabs(u as int) < pow10(19),
        iabs(sc as int) <= 20_000_000_000_000_000_000,
    ensures
        ({
            let s = spec_parse_exp_nested(u as int, sc as int, v@.subrange(a as int, b as int));
            match r {
                Ok(val) => s == Ok::<BigFloat, TextError>(val) && wf(val),
                Err(e) => s == Err::<BigFloat, TextError>(err_view(e)),
            }
        }),
    decreases b - a, 3int,
{
    match parse_at_exec(v, a, b) {
        Ok(ev) => {
            if ev.is_finite() {
                Ok(assemble_exec(u, sc, ev))
            } else {
                Err(ParseError::InvalidExponent(range_string(v, a, b)))
            }
        },
        Err(_) => Err(ParseError::InvalidExponent(range_string(v, a, b))),
    }
}

/// `spec_parse_times` on a slice of `v`, executably (`j` absolute).
fn parse_times_exec(v: &Vec<char>, a: usize, b: usize, j: usize) -> (r: Result<
    BigFloat,
    ParseError,
>)
    requires
        a <= j,
        j + 8 <= b,
        b <= v@.len(),
    ensures
        ({
            let s = spec_parse_times(v@.subrange(a as int, b as int), j as int - a as int);
            match r {
                Ok(val) => s == Ok::<BigFloat, TextError>(val) && wf(val),
                Err(e) => s == Err::<BigFloat, TextError>(err_view(e)),
            }
        }),
    decreases b - a, 1int,
{
    let ghost t = v@.subrange(a as int, b as int);
    let vlen: usize = v.len();
    proof {
        pow10_vals();
        assert(vlen as int == v@.len());
        assert(t.subrange(0, j as int - a as int) =~= v@.subrange(a as int, j as int));
        assert(t.subrange(j as int - a as int + 7, t.len() - 1) =~= v@.subrange(
            j as int + 7,
            b as int - 1,
        ));
    }
    match dec_parse_exec(v, a, j) {
        None => Err(ParseError::InvalidMantissa(range_string(v, a, j))),
        Some((u, sc)) => {
            match parse_at_exec(v, j + 7, b - 1) {
                Ok(ev) => {
                    if ev.is_finite() {
                        Ok(assemble_exec(u, sc, ev))
                    } else {
                        Err(ParseError::InvalidExponent(range_string(v, j + 7, b - 1)))
                    }
                },
                Err(_) => Err(ParseError::InvalidExponent(range_string(v, j + 7, b - 1))),
            }
        },
    }
}

/// `spec_parse_e` on a slice of `v`, executably (`i` absolute).
fn parse_e_exec(v: &Vec<char>, a: usize, b: usize, i: usize) -> (r: Result<BigFloat, ParseError>)
    requires
        a <= i,
        i < b,
        b <= v@.len(),
    ensures
        ({
            let s = spec_parse_e(v@.subrange(a as int, b as int), i as int - a as int);
            match r {
                Ok(val) => s == Ok::<BigFloat, TextError>(val) && wf(val),
                Err(e) => s == Err::<BigFloat, TextError>(err_view(e)),
            }
        }),
    decreases b - a, 1int,
{
    let ghost t = v@.subrange(a as int, b as int);
    let vlen: usize = v.len();
    proof {
        pow10_vals();
        assert(vlen as int == v@.len());
        assert(t.subrange(0, i as int - a as int) =~= v@.subrange(a as int, i as int));
        assert(t.subrange(i as int - a as int + 1, t.len() as int) =~= v@.subrange(
            i as int + 1,
            b as int,
        ));
    }
    match dec_parse_exec(v, a, i) {
        None => Err(ParseError::InvalidMantissa(range_string(v, a, i))),
        Some((u, sc)) => {
            let plain = match int_parse_exec(v, i + 1, b) {
                Some(p) => {
                    if i64::MIN as i128 <= p && p <= i64::MAX as i128 {
                        Some(p)
                    } else {
                        None
                    }
                },
                None => None,
            };
            match plain {
                Some(p) => Ok(crate::bigfloat::norm_at(u, sc + 14 + p)),
                None => parse_exp_nested_exec(v, i + 1, b, u, sc),
            }
        },
    }
}

/// `spec_parse_at` on a slice of `v`, executably.
fn parse_at_exec(v: &Vec<char>, a: usize, b: usize) -> (r: Result<BigFloat, ParseError>)
    requires
        a <= b <= v@.len(),
    ensures
        ({
            let s = spec_parse_at(v@.subrange(a as int, b as int));
            match r {
                Ok(val) => s == Ok::<BigFloat, TextError>(val) && wf(val),
                Err(e) => s == Err::<BigFloat, TextError>(err_view(e)),
            }
        }),
    decreases b - a, 2int,
{
    let ghost t = v@.subrange(a as int, b as int);
    if b == a {
        return Err(ParseError::Empty);
    }
    if tok_nan_exec(v, a, b) {
        return Ok(BigFloat::nan());
    }
    if tok_inf_exec(v, a, b) {
        return Ok(BigFloat::infinity());
    }
    if tok_neg_inf_exec(v, a, b) {
        return Ok(BigFloat::neg_infinity());
    }
    if tok_zero_exec(v, a, b) {
        return Ok(BigFloat::zero());
    }
    let j = find_times_exec(v, a, b);
    if j < b && v[b - 1] == ')' && (b - 1) - j >= 7 {
        proof {
            assert(t[t.len() - 1] == v@[b as int - 1]);
        }
        parse_times_exec(v, a, b, j)
    } else {
        let i = find_e_exec(v, a, b);
        if i >= b {
            parse_plain_exec(v, a, b)
        } else {
            parse_e_exec(v, a, b, i)
        }
    }
}

impl BigFloat {
    /// Parse a value from text. The grammar, in order: the literal tokens
    /// `NaN`, `inf`/`infinity`/`∞` (optionally negated), `0` and `0.0`; the
    /// formatter's nested form `<mantissa> × 10^(<value>)`; a plain decimal
    /// number; and `<mantissa>e<exponent>`, where the exponent is a plain
    /// integer when it fits and otherwise is itself parsed recursively as a
    /// value, which is what admits nested input such as `1e1e100`. The
    /// error names the substring that failed.
    pub fn from_text(s: &str) -> (r: Result<BigFloat, ParseError>)
        ensures
            ({
                let p = spec_parse(s@);
                match r {
                    Ok(val) => p == Ok::<BigFloat, TextError>(val) && wf(val),
                    Err(e) => p == Err::<BigFloat, TextError>(err_view(e)),
                }
            }),
    {
        let n = s.unicode_len();
        let mut v: Vec<char> = Vec::new();
        let mut i: usize = 0;
        while i < n
            invariant
                0 <= i <= n,
                n == s@.len(),
                v@ == s@.subrange(0, i as int),
            decreases n - i,
        {
            let c = s.get_char(i);
            v.push(c);
            i = i + 1;
            proof {
                assert(v@ =~= s@.subrange(0, i as int));
            }
        }
        proof {
            assert(v@ =~= s@);
        }
        let (a, b) = trim_bounds(&v);
        parse_at_exec(&v, a, b)
    }
}

/// Append one digit character.
fn push_digit(s: &mut String, d: u64)
    requires
        d < 10,
    ensures
        final(s)@ == old(s)@ + seq![digit_char(d as int)],
{
    proof {
        reveal_strlit("0");
        reveal_strlit("1");
        reveal_strlit("2");
        reveal_strlit("3");
        reveal_strlit("4");
        reveal_strlit("5");
        reveal_strlit("6");
        reveal_strlit("7");
        reveal_strlit("8");
        reveal_strlit("9");
    }
    if d == 0 {
        s.append("0");
    } else if d == 1 {
        s.append("1");
    } else if d == 2 {
        s.append("2");
    } else if d == 3 {
        s.append("3");
    } else if d == 4 {
        s.append("4");
    } else if d == 5 {
        s.append("5");
    } else if d == 6 {
        s.append("6");
    } else if d == 7 {
        s.append("7");
    } else if d == 8 {
        s.append("8");
    } else {
        s.append("9");
    }
    proof {
        assert(s@ =~= old(s)@ + seq![digit_char(d as int)]);
    }
}

/// Append the decimal digits of `n`.
fn push_dec(s: &mut String, n: u64)
    ensures
        final(s)@ == old(s)@ + dec_seq(n as int),
    decreases n,
{
    if n < 10 {
        push_digit(s, n);
    } else {
        push_dec(s, n / 10);
        push_digit(s, n % 10);
        proof {
            assert(s@ =~= old(s)@ + dec_seq(n as int));
        }
    }
}

/// Append `f` zero-padded to `k` digits.
fn push_padded(s: &mut String, f: u64, k: u64)
    requires
        k <= 15,
    ensures
        final(s)@ == old(s)@ + padded_seq(f as int, k as nat),
    decreases k,
{
    if k > 0 {
        push_padded(s, f / 10, k - 1);
        push_digit(s, f % 10);
        proof {
            assert(s@ =~= old(s)@ + padded_seq(f as int, k as nat));
        }
    } else {
        proof {
            assert(s@ =~= old(s)@ + padded_seq(f as int, 0));
        }
    }
}

/// Append `f` zero-padded to `k` digits, trailing zeros removed.
fn push_stripped(s: &mut String, f: u64, k: u64)
    requires
        k <= 15,
    ensures
        final(s)@ == old(s)@ + stripped_seq(f as int, k as nat),
    decreases k,
{
    if k == 0 {
        proof {
            assert(s@ =~= old(s)@ + stripped_seq(f as int, 0));
        }
    } else if f % 10 == 0 {
        push_stripped(s, f / 10, k - 1);
    } else {
        push_padded(s, f, k);
    }
}

/// Append the mantissa text for a banded magnitude.
fn push_mant(s: &mut String, mag: u64)
    requires
        SCALE <= (mag as int) < TEN_SCALE,
    ensures
        final(s)@ == old(s)@ + mant_seq(mag as int),
{
    proof {
        reveal_strlit(".");
    }
    let first: u64 = mag / (SCALE as u64);
    let frac: u64 = mag % (SCALE as u64);
    proof {
        assert((TEN_SCALE as int - 1) / (SCALE as int) == 9) by {
            vstd::arithmetic::div_mod::lemma_fundamental_div_mod_converse(
                TEN_SCALE as int - 1,
                SCALE as int,
                9,
                SCALE as int - 1,
            );
        }
        vstd::arithmetic::div_mod::lemma_div_is_ordered(
            mag as int,
            TEN_SCALE as int - 1,
            SCALE as int,
        );
    }
    push_digit(s, first);
    if frac != 0 {
        s.append(".");
        push_stripped(s, frac, 14);
        proof {
            assert(s@ =~= old(s)@ + mant_seq(mag as int));
        }
    } else {
        proof {
            assert(s@ =~= old(s)@ + mant_seq(mag as int));
        }
    }
}

/// Append the expanded decimal for a banded magnitude at exponent `e` in
/// `-4..=6`.
fn push_expanded(s: &mut String, mag: u64, e: i64)
    requires
        SCALE <= (mag as int) < TEN_SCALE,
        -4 <= e <= 6,
    ensures
        final(s)@ == old(s)@ + expanded_seq(mag as int, e as int),
{
    proof {
        reveal_strlit(".");
        reveal_strlit("0.");
        reveal_strlit("0");
        pow10_vals();
    }
    if e >= 0 {
        let p = crate::arithmetic::pow10_exec((14 - e) as u64);
        let ip: u64 = mag / p;
        let fp: u64 = mag % p;
        push_dec(s, ip);
        if fp != 0 {
            s.append(".");
            push_stripped(s, fp, (14 - e) as u64);
            proof {
                assert(s@ =~= old(s)@ + expanded_seq(mag as int, e as int));
            }
        } else {
            proof {
                assert(s@ =~= old(s)@ + expanded_seq(mag as int, e as int));
            }
        }
    } else {
        s.append("0.");
        let mut k: i64 = -e - 1;
        proof {
            assert(s@ =~= old(s)@ + seq!['0', '.'] + zeros_seq(0));
        }
        while k > 0
            invariant
                0 <= k <= (-e as int) - 1,
                s@ == old(s)@ + seq!['0', '.'] + zeros_seq(((-e as int) - 1 - k) as nat),
                -4 <= e <= -1,
            decreases k,
        {
            s.append("0");
            k = k - 1;
            proof {
                reveal_strlit("0");
                lemma_zeros_snoc(((-e as int) - 1 - k) as nat);
                assert(s@ =~= old(s)@ + seq!['0', '.'] + zeros_seq(((-e as int) - 1 - k) as nat));
            }
        }
        push_stripped(s, mag, 15);
        proof {
            assert(s@ =~= old(s)@ + expanded_seq(mag as int, e as int));
        }
    }
}

/// Appending one more zero extends the zero run at the back.
proof fn lemma_zeros_snoc(k: nat)
    requires
        k >= 1,
    ensures
        zeros_seq(k) == zeros_seq((k - 1) as nat) + seq!['0'],
    decreases k,
{
    if k > 1 {
        lemma_zeros_snoc((k - 1) as nat);
        assert(zeros_seq(k) =~= zeros_seq((k - 1) as nat) + seq!['0']);
    } else {
        assert(zeros_seq(1) =~= zeros_seq(0) + seq!['0']);
    }
}

/// Append the decimal digits of an integer with its sign.
fn push_int(s: &mut String, n: i64)
    ensures
        final(s)@ == old(s)@ + int_seq(n as int),
{
    proof {
        reveal_strlit("-");
    }
    if n < 0 {
        s.append("-");
        let mag: u64 = if n == i64::MIN {
            9223372036854775808u64
        } else {
            (-n) as u64
        };
        push_dec(s, mag);
        proof {
            assert(s@ =~= old(s)@ + int_seq(n as int));
        }
    } else {
        push_dec(s, n as u64);
    }
}

impl BigFloat {
    /// Render the value as text (see the module description for the shape).
    pub fn to_text(&self) -> (r: String)
        requires
            wf(*self),
        ensures
            r@ == spec_text(*self),
        decreases height(*self),
    {
        proof {
            reveal_strlit("NaN");
            reveal_strlit("∞");
            reveal_strlit("-∞");
            reveal_strlit("0");
            reveal_strlit("-");
            reveal_strlit("e");
            reveal_strlit(" × 10^(");
            reveal_strlit(")");
        }
        match &self.mantissa {
            Mantissa::NaN => String::from_str("NaN"),
            Mantissa::Inf(neg) => {
                if *neg {
                    String::from_str("-∞")
                } else {
                    String::from_str("∞")
                }
            },
            Mantissa::Units(u) => {
                let u: i64 = *u;
                if u == 0 {
                    String::from_str("0")
                } else {
                    let neg: bool = u < 0;
                    let mag: u64 = if neg {
                        (-u) as u64
                    } else {
                        u as u64
                    };
                    let mut out = String::new();
                    if neg {
                        out.append("-");
                    }
                    proof {
                        assert(out@ =~= sign_seq(u < 0));
                    }
                    match &self.exponent {
                        Exponent::Plain(e) => {
                            let e: i64 = *e;
                            if -4 <= e && e <= 6 {
                                push_expanded(&mut out, mag, e);
                                proof {
                                    assert(out@ =~= spec_text(*self));
                                }
                                out
                            } else {
                                push_mant(&mut out, mag);
                                out.append("e");
                                push_int(&mut out, e);
                                proof {
                                    assert(out@ =~= spec_text(*self));
                                }
                                out
                            }
                        },
                        Exponent::Nested(b) => {
                            push_mant(&mut out, mag);
                            out.append(" × 10^(");
                            let inner = (&**b).to_text();
                            out.append(inner.as_str());
                            out.append(")");
                            proof {
                                assert(out@ =~= spec_text(*self));
                            }
                            out
                        },
                    }
                }
            },
        }
    }
}

} // verus!
