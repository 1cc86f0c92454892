//! Fixed-point decimal numbers.
//!
//! Rates and amounts are held in millionths of a unit ("micro" units), so
//! every computation in the library is exact integer arithmetic.  This module
//! parses decimal strings into micro units and renders micro units back as
//! decimal strings rounded to two places, half away from zero.

use vstd::prelude::*;
use vstd::string::*;
use vstd::arithmetic::mul::{lemma_mul_inequality, lemma_mul_upper_bound, lemma_mul_unary_negation};
use vstd::arithmetic::div_mod::lemma_basic_div;
use crate::rates::div_toward_zero;
use crate::strutil::{push_char, dec_digits, dec_2, append_u64, append_2};

verus! {

/// Micro units per whole unit.
pub const SCALE: i64 = 1000000;

pub open spec fn is_digit(c: char) -> bool {
    '0' <= c && c <= '9'
}

pub open spec fn digit_val(c: char) -> int {
    c as int - '0' as int
}

pub open spec fn all_digits(s: Seq<char>) -> bool {
    forall|i: int| 0 <= i < s.len() ==> is_digit(#[trigger] s[i])
}

/// The value of a digit string read most significant digit first.
pub open spec fn digits_value(s: Seq<char>) -> int
    decreases s.len(),
{
    if s.len() == 0 {
        0
    } else {
        digits_value(s.drop_last()) * 10 + digit_val(s.last())
    }
}

pub proof fn lemma_digits_value_nonneg(s: Seq<char>)
    requires
        all_digits(s),
    ensures
        digits_value(s) >= 0,
    decreases s.len(),
{
    if s.len() > 0 {
        assert(all_digits(s.drop_last()));
        lemma_digits_value_nonneg(s.drop_last());
    }
}

pub proof fn lemma_digits_value_step(s: Seq<char>, j: int)
    requires
        0 <= j < s.len(),
    ensures
        digits_value(s.take(j + 1)) == digits_value(s.take(j)) * 10 + digit_val(s[j]),
{
    assert(s.take(j + 1).drop_last() =~= s.take(j));
    assert(s.take(j + 1).last() == s[j]);
}

/// Powers of ten up to one million, for fraction padding.
pub open spec fn pow10(k: nat) -> int {
    if k == 0 { 1 }
    else if k == 1 { 10 }
    else if k == 2 { 100 }
    else if k == 3 { 1000 }
    else if k == 4 { 10000 }
    else if k == 5 { 100000 }
    else { 1000000 }
}

/// A digit string of length at most six is worth less than `pow10` of its
/// length.
pub proof fn lemma_digits_value_bound(s: Seq<char>)
    requires
        all_digits(s),
        s.len() <= 6,
    ensures
        0 <= digits_value(s) < pow10(s.len()),
    decreases s.len(),
{
    if s.len() > 0 {
        assert(all_digits(s.drop_last()));
        lemma_digits_value_bound(s.drop_last());
    }
}

/// The value in micro units of a fractional digit string: only the first six
/// digits matter, shorter strings are padded with zeros on the right.
pub open spec fn frac_micro(s: Seq<char>) -> int {
    let k: nat = if s.len() < 6 { s.len() } else { 6nat };
    digits_value(s.take(k as int)) * pow10((6 - k) as nat)
}

/// A valid position for the decimal point in an unsigned decimal string:
/// non-empty digit runs on both sides of it.
pub open spec fn split_ok(s: Seq<char>, i: int) -> bool {
    &&& 1 <= i
    &&& i + 1 < s.len()
    &&& s[i] == '.'
    &&& all_digits(s.take(i))
    &&& all_digits(s.skip(i + 1))
}

/// The micro-unit value of an unsigned decimal string, when it is well
/// formed; `None` otherwise.  Well-formed strings are a non-empty digit run,
/// optionally followed by a point and another non-empty digit run.
pub open spec fn unsigned_micro(s: Seq<char>) -> Option<int> {
    if s.len() > 0 && all_digits(s) {
        Some(digits_value(s) * (SCALE as int))
    } else if exists|i: int| split_ok(s, i) {
        let i = choose|i: int| split_ok(s, i);
        Some(digits_value(s.take(i)) * (SCALE as int) + frac_micro(s.skip(i + 1)))
    } else {
        None
    }
}

/// The result of parsing a signed decimal string into micro units: `None`
/// for a malformed string or one whose value does not fit an `i64`.
pub open spec fn parse_spec(s: Seq<char>) -> Option<int> {
    let neg = s.len() > 0 && s[0] == '-';
    let u = if neg { s.skip(1) } else { s };
    match unsigned_micro(u) {
        None => None,
        Some(v) => {
            if neg {
                if v <= 9223372036854775808 { Some(-v) } else { None }
            } else {
                if v <= 9223372036854775807 { Some(v) } else { None }
            }
        },
    }
}

proof fn lemma_split_unique(s: Seq<char>, i: int, j: int)
    requires
        split_ok(s, i),
        split_ok(s, j),
    ensures
        i == j,
{
    if i < j {
        assert(s.take(j)[i] == s[i]);
        assert(!is_digit('.'));
        assert(!all_digits(s.take(j)));
    }
    if j < i {
        assert(s.take(i)[j] == s[j]);
        assert(!all_digits(s.take(i)));
    }
}

/// Whether the character at `j` is a decimal digit.
fn digit_at(s: &str, j: usize) -> (r: bool)
    requires
        j < s@.len(),
    ensures
        r == is_digit(s@[j as int]),
{
    let c = s.get_char(j);
    '0' <= c && c <= '9'
}

/// Parses a signed decimal string ("-123.456") into micro units.
pub fn parse_decimal(s: &str) -> (r: Option<i64>)
    ensures
        r is None <==> parse_spec(s@) is None,
        r matches Some(rv) ==> parse_spec(s@) == Some(rv as int),
{
    let len = s.unicode_len();
    let mut start: usize = 0;
    let mut neg = false;
    if len > 0 && s.get_char(0) == '-' {
        neg = true;
        start = 1;
    }
    let ghost u: Seq<char> = if neg { s@.skip(1) } else { s@ };
    proof {
        assert(u.len() == len - start);
        assert(forall|k: int| 0 <= k < u.len() ==> u[k] == s@[k + start]);
        if !neg && s@.len() > 0 {
            assert(s@[0] != '-');
        }
    }

    // Integer part: at least one digit.
    let mut j: usize = start;
    let mut acc: i128 = 0;
    let mut ovf = false;
    assert(u.take(0) =~= Seq::<char>::empty());
    while j < len && digit_at(s, j)
        invariant
            start <= j <= len,
            len == s@.len(),
            start == if neg { 1int } else { 0int },
            u == if neg { s@.skip(1) } else { s@ },
            u.len() == len - start,
            forall|k: int| 0 <= k < u.len() ==> u[k] == s@[k + start],
            all_digits(u.take(j - start)),
            !ovf ==> acc == digits_value(u.take(j - start)) && 0 <= acc
                <= 9223372036854775808i128,
            ovf ==> digits_value(u.take(j - start)) > 9223372036854775808,
        decreases len - j,
    {
        let c = s.get_char(j);
        let d: i128 = (c as u32 - 48) as i128;
        proof {
            lemma_digits_value_step(u, j - start);
            assert(u[j - start] == s@[j as int]);
            assert(digit_val(u[j - start]) == d as int);
        }
        if !ovf {
            let next: i128 = acc * 10 + d;
            if next > 9223372036854775808i128 {
                ovf = true;
            } else {
                acc = next;
            }
        }
        assert(all_digits(u.take(j - start + 1)));
        j = j + 1;
    }
    if j == start {
        // No leading digit: malformed.
        proof {
            if u.len() > 0 && all_digits(u) {
                assert(is_digit(u[0]));
                assert(u[0] == s@[start as int]);
                assert(false);
            }
            if exists|i: int| split_ok(u, i) {
                let i = choose|i: int| split_ok(u, i);
                assert(u.take(i)[0] == u[0]);
                assert(is_digit(u[0]));
                assert(false);
            }
        }
        return None;
    }
    let ghost ip_len: int = j - start;

    if j == len {
        // Shape without a point: the whole of `u` is digits.
        assert(u.take(ip_len) =~= u);
        if ovf {
            proof {
                lemma_digits_value_nonneg(u);
                broadcast use lemma_mul_inequality;
                assert((9223372036854775809int) * (SCALE as int) <= digits_value(u) * (
                SCALE as int));
            }
            return None;
        }
        let v: i128 = acc * 1000000;
        return finish(neg, v, Ghost(s@), Ghost(u), Ghost(digits_value(u) * (SCALE as int)));
    }

    // There is a further character: it must be a point.
    if !(s.get_char(j) == '.') {
        proof {
            lemma_malformed_at(u, ip_len);
        }
        return None;
    }
    let dot: usize = j;
    let ghost dpos: int = dot - start;
    assert(u[dpos] == '.');

    // Fraction part: at least one digit; only the first six carry weight.
    let mut k: usize = dot + 1;
    let mut frac: i128 = 0;
    let mut cnt: usize = 0;
    let ghost fp: Seq<char> = u.skip(dpos + 1);
    proof {
        assert(fp.len() == len - dot - 1);
        assert(forall|t: int| 0 <= t < fp.len() ==> fp[t] == s@[t + dot + 1]);
        assert(fp.take(0) =~= Seq::<char>::empty());
    }
    while k < len && digit_at(s, k)
        invariant
            dot + 1 <= k <= len,
            len == s@.len(),
            fp.len() == len - dot - 1,
            forall|t: int| 0 <= t < fp.len() ==> fp[t] == s@[t + dot + 1],
            all_digits(fp.take(k - dot - 1)),
            cnt == if k - dot - 1 < 6 { k - dot - 1 } else { 6int },
            frac == digits_value(fp.take(cnt as int)),
            0 <= frac < 1000000,
        decreases len - k,
    {
        let c2 = s.get_char(k);
        let d: i128 = (c2 as u32 - 48) as i128;
        proof {
            assert(fp[k - dot - 1] == s@[k as int]);
        }
        if cnt < 6 {
            proof {
                lemma_digits_value_step(fp, cnt as int);
                assert(fp.take(cnt as int) =~= fp.take(k - dot - 1));
                lemma_digits_value_bound(fp.take(cnt + 1));
                assert(all_digits(fp.take(cnt + 1))) by {
                    assert(forall|t: int| 0 <= t < cnt + 1 ==> fp.take(cnt + 1)[t] == fp[t]);
                    assert(is_digit(fp[cnt as int]));
                }
            }
            frac = frac * 10 + d;
            cnt = cnt + 1;
        }
        assert(all_digits(fp.take(k - dot - 1 + 1)));
        k = k + 1;
    }
    if k == dot + 1 {
        // Empty fraction: malformed.
        proof {
            assert(k == len || !is_digit(fp[0]));
            lemma_malformed_fraction(u, dpos, 0);
        }
        return None;
    }
    if k < len {
        // A non-digit inside the fraction: malformed.
        proof {
            assert(fp[k - dot - 1] == s@[k as int]);
            assert(!is_digit(fp[k - dot - 1]));
            lemma_malformed_fraction(u, dpos, k - dot - 1);
        }
        return None;
    }
    assert(fp.take(fp.len() as int) =~= fp);
    assert(all_digits(fp));

    // Whole string consumed: the split at `dpos` is the valid one.
    proof {
        assert(u.take(dpos) =~= u.take(ip_len));
        assert(split_ok(u, dpos));
        assert(!all_digits(u)) by {
            assert(!is_digit('.'));
        }
    }
    let ghost km: nat = if fp.len() < 6 { fp.len() } else { 6nat };
    assert(cnt == km);
    let scale_rest: i128 = pow10_exec(6 - (cnt as u64));
    proof {
        lemma_digits_value_bound(fp.take(km as int));
        lemma_digits_value_nonneg(fp.take(km as int));
        lemma_mul_upper_bound(digits_value(fp.take(km as int)), 999999, pow10((6 - km) as nat),
            1000000);
        lemma_mul_inequality(0, digits_value(fp.take(km as int)), pow10((6 - km) as nat));
    }
    let frac_m: i128 = frac * scale_rest;
    proof {
        assert(frac_m == frac_micro(fp));
        assert(0 <= frac_m < 1000000000000);
    }
    let ghost uv: int = digits_value(u.take(dpos)) * (SCALE as int) + frac_micro(fp);
    proof {
        let i = choose|i: int| split_ok(u, i);
        lemma_split_unique(u, i, dpos);
        assert(unsigned_micro(u) == Some(uv));
    }
    if ovf {
        proof {
            broadcast use lemma_mul_inequality;
            assert((9223372036854775809int) * (SCALE as int) <= digits_value(u.take(dpos)) * (
            SCALE as int));
        }
        return None;
    }
    let v: i128 = acc * 1000000 + frac_m;
    finish(neg, v, Ghost(s@), Ghost(u), Ghost(uv))
}

/// The range check and sign application shared by both shapes of
/// `parse_decimal`.
fn finish(neg: bool, v: i128, Ghost(full): Ghost<Seq<char>>, Ghost(u): Ghost<Seq<char>>, Ghost(
    uv,
): Ghost<int>) -> (r: Option<i64>)
    requires
        v == uv,
        0 <= v,
        unsigned_micro(u) == Some(uv),
        neg ==> full.len() > 0 && full[0] == '-' && full.skip(1) == u,
        !neg ==> full == u,
    ensures
        r is None <==> parse_spec(full) is None,
        r matches Some(rv) ==> parse_spec(full) == Some(rv as int),
{
    proof {
        if !neg && full.len() > 0 && full[0] == '-' {
            assert(!is_digit('-'));
            if u.len() > 0 && all_digits(u) {
                assert(false);
            }
            if exists|i: int| split_ok(u, i) {
                let i = choose|i: int| split_ok(u, i);
                assert(u.take(i)[0] == u[0]);
                assert(false);
            }
        }
    }
    if neg {
        if v <= 9223372036854775808i128 {
            let r: i64 = (-v) as i64;
            Some(r)
        } else {
            None
        }
    } else {
        if v <= 9223372036854775807i128 {
            Some(v as i64)
        } else {
            None
        }
    }
}

/// When the integer digits stop at a character that is not a point, no shape
/// matches.
proof fn lemma_malformed_at(u: Seq<char>, p: int)
    requires
        0 <= p < u.len(),
        !is_digit(u[p]),
        u[p] != '.',
        all_digits(u.take(p)),
    ensures
        unsigned_micro(u) is None,
{
    assert(!all_digits(u));
    assert forall|i: int| !split_ok(u, i) by {
        if split_ok(u, i) {
            if i < p {
                assert(u.take(p)[i] == u[i]);
                assert(is_digit(u[i]));
                assert(u[i] == '.');
                assert(false);
            } else if i == p {
                assert(false);
            } else {
                assert(u.take(i)[p] == u[p]);
                assert(!all_digits(u.take(i)));
                assert(false);
            }
        }
    }
}

/// When the point is found but the fraction is empty or holds a non-digit,
/// no shape matches.
proof fn lemma_malformed_fraction(u: Seq<char>, dpos: int, bad: int)
    requires
        0 <= dpos < u.len(),
        u[dpos] == '.',
        dpos >= 1,
        all_digits(u.take(dpos)),
        dpos + 1 + bad <= u.len(),
        bad >= 0,
        if dpos + 1 + bad == u.len() { bad == 0 } else { !is_digit(u[dpos + 1 + bad]) },
        all_digits(u.skip(dpos + 1).take(bad)),
    ensures
        unsigned_micro(u) is None,
{
    assert(!all_digits(u)) by {
        assert(!is_digit(u[dpos]));
    }
    assert forall|i: int| !split_ok(u, i) by {
        if split_ok(u, i) {
            if i < dpos {
                assert(u.take(dpos)[i] == u[i]);
                assert(is_digit(u[i]));
                assert(false);
            } else if i == dpos {
                if dpos + 1 + bad == u.len() {
                    assert(i + 1 < u.len());
                    assert(false);
                } else {
                    assert(u.skip(i + 1)[bad] == u[dpos + 1 + bad]);
                    assert(!all_digits(u.skip(i + 1)));
                    assert(false);
                }
            } else {
                assert(u.take(i)[dpos] == u[dpos]);
                assert(!all_digits(u.take(i)));
                assert(false);
            }
        }
    }
}

/// The cent value of a micro amount, rounded half away from zero.
pub open spec fn cents_of(v: int) -> int {
    if v >= 0 {
        (v + 5000) / 10000
    } else {
        -((-v + 5000) / 10000)
    }
}

/// The decimal rendering of a cent value with exactly two places after the
/// point, and a leading minus sign when negative.
pub open spec fn format_cents(c: int) -> Seq<char> {
    if c < 0 {
        seq!['-'] + dec_digits((-c / 100) as nat) + seq!['.'] + dec_2((-c % 100) as nat)
    } else {
        dec_digits((c / 100) as nat) + seq!['.'] + dec_2((c % 100) as nat)
    }
}

/// The two-place rendering of a micro amount: round half away from zero,
/// then print.
pub open spec fn format_micro(v: int) -> Seq<char> {
    format_cents(cents_of(v))
}

/// Renders a micro amount with two places after the point, rounding half
/// away from zero.
pub fn format_micro_2dp(v: i64) -> (r: String)
    ensures
        r@ == format_micro(v as int),
{
    let neg = v < 0;
    let abs_m: u64 = if v < 0 {
        (-(v as i128)) as u64
    } else {
        v as u64
    };
    let cents: u64 = (abs_m + 5000) / 10000;
    proof {
        if v >= 0 {
            assert(cents_of(v as int) == cents as int);
        } else {
            assert(abs_m as int == -(v as int));
            assert(cents_of(v as int) == -(cents as int));
        }
    }
    let mut out = String::new();
    if neg && cents > 0 {
        push_char(&mut out, '-');
    }
    append_u64(&mut out, cents / 100);
    push_char(&mut out, '.');
    append_2(&mut out, cents % 100);
    proof {
        let c = cents_of(v as int);
        if c < 0 {
            assert(-c == cents as int);
            assert(out@ =~= format_cents(c));
        } else {
            assert(c == cents as int);
            assert(out@ =~= format_cents(c));
        }
    }
    out
}

/// Unbounded powers of ten, for exponent scaling.
pub open spec fn pow10_big(k: nat) -> int
    decreases k,
{
    if k == 0 {
        1
    } else {
        10 * pow10_big((k - 1) as nat)
    }
}

pub proof fn lemma_pow10_big_pos(k: nat)
    ensures
        pow10_big(k) >= 1,
    decreases k,
{
    if k > 0 {
        lemma_pow10_big_pos((k - 1) as nat);
    }
}

pub proof fn lemma_pow10_big_monotone(a: nat, b: nat)
    requires
        a <= b,
    ensures
        pow10_big(a) <= pow10_big(b),
    decreases b,
{
    if a < b {
        lemma_pow10_big_monotone(a, (b - 1) as nat);
        lemma_pow10_big_pos((b - 1) as nat);
    }
}

/// The characters a plain decimal string can hold.
pub open spec fn plain_char(c: char) -> bool {
    is_digit(c) || c == '-' || c == '.'
}

/// A string that parses as a plain decimal holds only digits, the sign and
/// the point.
proof fn lemma_parse_chars(s: Seq<char>)
    requires
        parse_spec(s) is Some,
    ensures
        forall|i: int| 0 <= i < s.len() ==> plain_char(#[trigger] s[i]),
{
    let neg = s.len() > 0 && s[0] == '-';
    let u = if neg {
        s.skip(1)
    } else {
        s
    };
    let off: int = if neg {
        1
    } else {
        0
    };
    assert(unsigned_micro(u) is Some);
    assert forall|i: int| 0 <= i < s.len() implies plain_char(#[trigger] s[i]) by {
        if neg && i == 0 {
        } else {
            let j = i - off;
            assert(u[j] == s[i]);
            if u.len() > 0 && all_digits(u) {
                assert(is_digit(u[j]));
            } else {
                let t = choose|t: int| split_ok(u, t);
                assert(split_ok(u, t));
                if j < t {
                    assert(u.take(t)[j] == u[j]);
                    assert(is_digit(u[j]));
                } else if j == t {
                } else {
                    assert(u.skip(t + 1)[j - t - 1] == u[j]);
                    assert(is_digit(u[j]));
                }
            }
        }
    }
}

/// The exponent marker of scientific notation.
pub open spec fn exp_marker(c: char) -> bool {
    c == 'e' || c == 'E'
}

/// A well-formed exponent: an optional sign, then at least one digit.
pub open spec fn exp_valid(t: Seq<char>) -> bool {
    ||| t.len() >= 1 && all_digits(t)
    ||| t.len() >= 2 && (t[0] == '+' || t[0] == '-') && all_digits(t.skip(1))
}

/// The signed value of an exponent string.
pub open spec fn exp_value(t: Seq<char>) -> int {
    if t.len() >= 1 && t[0] == '-' {
        -digits_value(t.skip(1))
    } else if t.len() >= 1 && t[0] == '+' {
        digits_value(t.skip(1))
    } else {
        digits_value(t)
    }
}

/// A valid position for the exponent marker: a plain decimal mantissa on
/// the left and a well-formed exponent on the right.
pub open spec fn exp_split_ok(s: Seq<char>, i: int) -> bool {
    &&& 1 <= i < s.len()
    &&& exp_marker(s[i])
    &&& parse_spec(s.take(i)) is Some
    &&& exp_valid(s.skip(i + 1))
}

proof fn lemma_exp_split_unique(s: Seq<char>, i: int, j: int)
    requires
        exp_split_ok(s, i),
        exp_split_ok(s, j),
    ensures
        i == j,
{
    if i < j {
        lemma_parse_chars(s.take(j));
        assert(s.take(j)[i] == s[i]);
        assert(!plain_char(s[i]));
    }
    if j < i {
        lemma_parse_chars(s.take(i));
        assert(s.take(i)[j] == s[j]);
        assert(!plain_char(s[j]));
    }
}

/// A mantissa in micro units scaled by a power of ten, truncating toward
/// zero; out-of-range results are rejected.
pub open spec fn scaled(m: int, e: int) -> Option<int> {
    let v = if e >= 0 {
        m * pow10_big(e as nat)
    } else {
        div_toward_zero(m, pow10_big((-e) as nat))
    };
    if -9223372036854775808 <= v <= 9223372036854775807 {
        Some(v)
    } else {
        None
    }
}

/// The result of parsing a decimal number with optional scientific
/// notation: the mantissa read into micro units, then scaled by the
/// exponent; `None` for malformed or out-of-range input.
pub open spec fn number_spec(s: Seq<char>) -> Option<int> {
    if exists|i: int| exp_split_ok(s, i) {
        let i = choose|i: int| exp_split_ok(s, i);
        match parse_spec(s.take(i)) {
            Some(m) => scaled(m, exp_value(s.skip(i + 1))),
            None => None,
        }
    } else {
        parse_spec(s)
    }
}

/// Whether the character at `j` is an exponent marker.
fn marker_at(s: &str, j: usize) -> (r: bool)
    requires
        j < s@.len(),
    ensures
        r == exp_marker(s@[j as int]),
{
    let c = s.get_char(j);
    c == 'e' || c == 'E'
}

proof fn lemma_pow10_big_38()
    ensures
        pow10_big(38) == 100000000000000000000000000000000000000,
{
    reveal_with_fuel(pow10_big, 40);
}

fn pow10_big_exec(k: u64) -> (r: i128)
    requires
        k <= 38,
    ensures
        r == pow10_big(k as nat),
        r >= 1,
{
    proof {
        lemma_pow10_big_38();
    }
    let mut p: i128 = 1;
    let mut j: u64 = 0;
    while j < k
        invariant
            j <= k <= 38,
            p == pow10_big(j as nat),
            pow10_big(38) == 100000000000000000000000000000000000000,
        decreases k - j,
    {
        proof {
            lemma_pow10_big_monotone((j + 1) as nat, 38);
            lemma_pow10_big_pos(j as nat);
        }
        p = p * 10;
        j = j + 1;
    }
    proof {
        lemma_pow10_big_pos(k as nat);
    }
    p
}

proof fn lemma_pow10_big_19()
    ensures
        pow10_big(19) == 10000000000000000000,
{
    reveal_with_fuel(pow10_big, 21);
}

proof fn lemma_pow10_big_20()
    ensures
        pow10_big(20) == 100000000000000000000,
{
    reveal_with_fuel(pow10_big, 22);
}

/// With a marker at `epos` and either side of it malformed, the string is
/// no number at all.
proof fn lemma_marker_spoils(s: Seq<char>, epos: int)
    requires
        0 <= epos < s.len(),
        exp_marker(s[epos]),
        forall|j: int| 0 <= j < epos ==> !exp_marker(#[trigger] s[j]),
        !(parse_spec(s.take(epos)) is Some) || !exp_valid(s.skip(epos + 1)),
    ensures
        number_spec(s) is None,
{
    assert forall|t: int| !exp_split_ok(s, t) by {
        if exp_split_ok(s, t) {
            if t < epos {
                assert(!exp_marker(s[t]));
                assert(false);
            } else if t == epos {
                assert(false);
            } else {
                lemma_parse_chars(s.take(t));
                assert(s.take(t)[epos] == s[epos]);
                assert(!plain_char(s[epos]));
                assert(false);
            }
        }
    }
    assert(parse_spec(s) is None) by {
        if parse_spec(s) is Some {
            lemma_parse_chars(s);
            assert(plain_char(s[epos]));
            assert(false);
        }
    }
}

/// Applies a parsed exponent to a mantissa in micro units, truncating
/// toward zero and rejecting out-of-range results.
fn scale_mantissa(m: i64, eneg: bool, emag: u64, big: bool, Ghost(etrue): Ghost<int>) -> (r:
    Option<i64>)
    requires
        !big ==> emag <= 1000 && etrue == if eneg {
            -(emag as int)
        } else {
            emag as int
        },
        big ==> (if eneg {
            etrue < -1000
        } else {
            etrue > 1000
        }),
    ensures
        r is None <==> scaled(m as int, etrue) is None,
        r matches Some(rv) ==> scaled(m as int, etrue) == Some(rv as int),
{
    if !big && emag == 0 {
        proof {
            assert(pow10_big(0) == 1);
            assert((m as int) * 1 == m as int);
        }
        return Some(m);
    }
    let mu: u128 = if m < 0 {
        (-(m as i128)) as u128
    } else {
        m as u128
    };
    if eneg {
        if big || emag >= 39 {
            proof {
                let ne = (-etrue) as nat;
                lemma_pow10_big_38();
                lemma_pow10_big_monotone(38, ne);
                assert(mu < pow10_big(ne));
                if m >= 0 {
                    lemma_basic_div(m as int, pow10_big(ne));
                } else {
                    lemma_basic_div(-(m as int), pow10_big(ne));
                }
                assert(div_toward_zero(m as int, pow10_big(ne)) == 0);
            }
            return Some(0);
        }
        let p = pow10_big_exec(emag);
        let q: u128 = mu / (p as u128);
        proof {
            let pv = pow10_big(emag as nat);
            if m >= 0 {
                assert(div_toward_zero(m as int, pv) == (m as int) / pv);
            } else {
                assert(div_toward_zero(m as int, pv) == -((-(m as int)) / pv));
            }
            assert(q <= mu) by {
                vstd::arithmetic::div_mod::lemma_div_nonincreasing(mu as int, p as int);
            }
        }
        if m < 0 {
            Some((-(q as i128)) as i64)
        } else {
            Some(q as i64)
        }
    } else {
        if m == 0 {
            proof {
                let e = etrue as nat;
                assert((0int) * pow10_big(e) == 0) by (nonlinear_arith);
            }
            return Some(0);
        }
        if big || emag >= 20 {
            proof {
                let e = etrue as nat;
                lemma_pow10_big_20();
                lemma_pow10_big_monotone(20, e);
                let pv = pow10_big(e);
                if m >= 1 {
                    lemma_mul_inequality(1, m as int, pv);
                    assert((1int) * pv == pv);
                    assert((m as int) * pv > 9223372036854775807);
                } else {
                    lemma_mul_inequality(m as int, -1, pv);
                    assert((-1int) * pv == -pv);
                    assert((m as int) * pv < -9223372036854775808);
                }
            }
            return None;
        }
        let p = pow10_big_exec(emag);
        proof {
            lemma_pow10_big_19();
            lemma_pow10_big_monotone(emag as nat, 19);
            lemma_mul_upper_bound(mu as int, 9223372036854775808, p as int,
                10000000000000000000);
            if m < 0 {
                lemma_mul_unary_negation(mu as int, p as int);
                assert((m as int) * (p as int) == -((mu as int) * (p as int)));
            }
        }
        let prod: u128 = mu * (p as u128);
        if m > 0 {
            if prod > 9223372036854775807u128 {
                None
            } else {
                Some(prod as i64)
            }
        } else {
            if prod > 9223372036854775808u128 {
                None
            } else {
                Some((-(prod as i128)) as i64)
            }
        }
    }
}

/// Parses a decimal number with optional scientific notation ("2.5e-3")
/// into micro units.
pub fn parse_number(s: &str) -> (r: Option<i64>)
    ensures
        r is None <==> number_spec(s@) is None,
        r matches Some(rv) ==> number_spec(s@) == Some(rv as int),
{
    let len = s.unicode_len();
    let mut i: usize = 0;
    loop
        invariant
            i <= len,
            len == s@.len(),
            forall|j: int| 0 <= j < i ==> !exp_marker(#[trigger] s@[j]),
        ensures
            i <= len,
            i == len ==> forall|j: int| 0 <= j < len ==> !exp_marker(#[trigger] s@[j]),
            i < len ==> exp_marker(s@[i as int]) && (forall|j: int|
                0 <= j < i ==> !exp_marker(#[trigger] s@[j])),
        decreases len - i,
    {
        if i >= len {
            break;
        }
        if marker_at(s, i) {
            break;
        }
        i = i + 1;
    }
    if i == len {
        proof {
            assert forall|t: int| !exp_split_ok(s@, t) by {
                if exp_split_ok(s@, t) {
                    assert(exp_marker(s@[t]));
                    assert(false);
                }
            }
        }
        return parse_decimal(s);
    }
    let epos: usize = i;
    let mant = s.substring_char(0, epos);
    proof {
        assert(mant@ =~= s@.take(epos as int));
    }
    let m: i64 = match parse_decimal(mant) {
        Some(mv) => mv,
        None => {
            proof {
                lemma_marker_spoils(s@, epos as int);
            }
            return None;
        },
    };
    let ghost t: Seq<char> = s@.skip(epos + 1);
    let mut k: usize = epos + 1;
    let mut eneg = false;
    let mut signed = false;
    if k < len {
        let c = s.get_char(k);
        if c == '+' {
            signed = true;
            k = k + 1;
        } else if c == '-' {
            eneg = true;
            signed = true;
            k = k + 1;
        }
    }
    let dstart: usize = k;
    let ghost dsv: Seq<char> = s@.skip(dstart as int);
    proof {
        assert(t.len() == len - epos - 1);
        assert(forall|j: int| 0 <= j < t.len() ==> t[j] == s@[j + epos + 1]);
        assert(dsv.len() == len - dstart);
        assert(forall|j: int| 0 <= j < dsv.len() ==> dsv[j] == s@[j + dstart]);
    }
    if dstart >= len {
        proof {
            assert(!exp_valid(t)) by {
                if signed {
                    assert(t.len() == 1);
                    assert(!is_digit(t[0]));
                } else {
                    assert(t.len() == 0);
                }
            }
            lemma_marker_spoils(s@, epos as int);
        }
        return None;
    }
    let mut kk: usize = dstart;
    let mut acc: u64 = 0;
    let mut big = false;
    assert(dsv.take(0) =~= Seq::<char>::empty());
    while kk < len && digit_at(s, kk)
        invariant
            dstart <= kk <= len,
            len == s@.len(),
            dsv == s@.skip(dstart as int),
            dsv.len() == len - dstart,
            forall|j: int| 0 <= j < dsv.len() ==> dsv[j] == s@[j + dstart],
            all_digits(dsv.take(kk - dstart)),
            !big ==> acc == digits_value(dsv.take(kk - dstart)) && acc <= 1000,
            big ==> digits_value(dsv.take(kk - dstart)) > 1000,
        decreases len - kk,
    {
        let c = s.get_char(kk);
        let d: u64 = (c as u32 - 48) as u64;
        proof {
            lemma_digits_value_step(dsv, kk - dstart);
            assert(dsv[kk - dstart] == s@[kk as int]);
            assert(digit_val(dsv[kk - dstart]) == d as int);
        }
        if !big {
            let next: u64 = acc * 10 + d;
            if next > 1000 {
                big = true;
            } else {
                acc = next;
            }
        }
        assert(all_digits(dsv.take(kk - dstart + 1)));
        kk = kk + 1;
    }
    if kk < len {
        proof {
            assert(!is_digit(s@[kk as int]));
            assert(!exp_valid(t)) by {
                if signed {
                    assert(t.skip(1) =~= dsv);
                    if t.len() >= 1 && all_digits(t) {
                        assert(is_digit(t[0]));
                        assert(false);
                    }
                    if t.len() >= 2 && (t[0] == '+' || t[0] == '-') && all_digits(t.skip(1)) {
                        assert(is_digit(dsv[kk - dstart]));
                        assert(false);
                    }
                } else {
                    assert(t =~= dsv);
                    if t.len() >= 1 && all_digits(t) {
                        assert(is_digit(dsv[kk - dstart]));
                        assert(false);
                    }
                    if t.len() >= 2 && (t[0] == '+' || t[0] == '-') {
                        assert(is_digit(dsv[0]) || kk == dstart);
                        assert(!is_digit('+') && !is_digit('-'));
                        assert(false);
                    }
                }
            }
            lemma_marker_spoils(s@, epos as int);
        }
        return None;
    }
    proof {
        assert(dsv.take(dsv.len() as int) =~= dsv);
        assert(dsv.len() >= 1);
        assert(exp_valid(t)) by {
            if signed {
                assert(t.skip(1) =~= dsv);
                assert(t.len() >= 2);
            } else {
                assert(t =~= dsv);
            }
        }
        assert(exp_split_ok(s@, epos as int));
        assert(exp_value(t) == (if eneg {
            -digits_value(dsv)
        } else {
            digits_value(dsv)
        })) by {
            lemma_digits_value_nonneg(dsv);
            if signed {
                assert(t.skip(1) =~= dsv);
                assert(t[0] == (if eneg { '-' } else { '+' }));
            } else {
                assert(t =~= dsv);
                assert(is_digit(t[0]));
            }
        }
    }
    let ghost etrue: int = exp_value(t);
    let r = scale_mantissa(m, eneg, acc, big, Ghost(etrue));
    proof {
        assert(exists|ti: int| exp_split_ok(s@, ti));
        let ci = choose|ti: int| exp_split_ok(s@, ti);
        lemma_exp_split_unique(s@, ci, epos as int);
        assert(parse_spec(s@.take(epos as int)) == Some(m as int));
        assert(number_spec(s@) == scaled(m as int, etrue));
    }
    r
}

fn pow10_exec(k: u64) -> (r: i128)
    requires
        k <= 6,
    ensures
        r == pow10(k as nat),
{
    if k == 0 { 1 }
    else if k == 1 { 10 }
    else if k == 2 { 100 }
    else if k == 3 { 1000 }
    else if k == 4 { 10000 }
    else if k == 5 { 100000 }
    else { 1000000 }
}

} // verus!
