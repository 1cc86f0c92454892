//! Verified civil-calendar arithmetic.
//!
//! Timestamps are Unix seconds; dates are proleptic Gregorian.  The spec side
//! counts days from 1970-01-01, and the executable side inverts that count,
//! so a rendered date is proved to denote exactly the day it came from.
//! Clocks far beyond year 9998 are clamped, keeping years at four digits.

use vstd::prelude::*;
use vstd::string::*;
use crate::strutil::{push_char, dec_2, dec_4, append_2, append_4};

verus! {

/// The largest day number rendered exactly (within year 9998).
pub const MAX_DAYS: u64 = 2930584;

/// The largest second count rendered exactly.
pub const MAX_SECS: u64 = 253202543999;

pub open spec fn is_leap(y: int) -> bool {
    y % 4 == 0 && (y % 100 != 0 || y % 400 == 0)
}

pub open spec fn days_in_year(y: int) -> int {
    if is_leap(y) { 366 } else { 365 }
}

/// Days from 1970-01-01 to the start of year `y`.
pub open spec fn days_before_year(y: int) -> int
    decreases y,
{
    if y <= 1970 {
        0
    } else {
        days_before_year(y - 1) + days_in_year(y - 1)
    }
}

pub open spec fn days_in_month(y: int, m: int) -> int {
    if m == 1 { 31 }
    else if m == 2 { if is_leap(y) { 29 } else { 28 } }
    else if m == 3 { 31 }
    else if m == 4 { 30 }
    else if m == 5 { 31 }
    else if m == 6 { 30 }
    else if m == 7 { 31 }
    else if m == 8 { 31 }
    else if m == 9 { 30 }
    else if m == 10 { 31 }
    else if m == 11 { 30 }
    else { 31 }
}

/// Days from the start of year `y` to the start of month `m`.
pub open spec fn days_before_month(y: int, m: int) -> int
    decreases m,
{
    if m <= 1 {
        0
    } else {
        days_before_month(y, m - 1) + days_in_month(y, m - 1)
    }
}

pub open spec fn valid_date(y: int, m: int, d: int) -> bool {
    &&& 1970 <= y <= 9999
    &&& 1 <= m <= 12
    &&& 1 <= d <= days_in_month(y, m)
}

/// The day number of a civil date, counted from 1970-01-01.
pub open spec fn civil_day_number(y: int, m: int, d: int) -> int {
    days_before_year(y) + days_before_month(y, m) + (d - 1)
}

pub open spec fn is_date_for(days: int, y: int, m: int, d: int) -> bool {
    valid_date(y, m, d) && civil_day_number(y, m, d) == days
}

proof fn lemma_days_before_year_lower(y: int)
    requires
        y >= 1970,
    ensures
        days_before_year(y) >= 365 * (y - 1970),
    decreases y,
{
    if y > 1970 {
        lemma_days_before_year_lower(y - 1);
    }
}

fn days_in_year_exec(y: u64) -> (r: u64)
    ensures
        r == days_in_year(y as int),
{
    if y % 4 == 0 && (y % 100 != 0 || y % 400 == 0) { 366 } else { 365 }
}

fn days_in_month_exec(y: u64, m: u64) -> (r: u64)
    requires
        1 <= m <= 12,
    ensures
        r == days_in_month(y as int, m as int),
{
    if m == 1 { 31 }
    else if m == 2 { if y % 4 == 0 && (y % 100 != 0 || y % 400 == 0) { 29 } else { 28 } }
    else if m == 3 { 31 }
    else if m == 4 { 30 }
    else if m == 5 { 31 }
    else if m == 6 { 30 }
    else if m == 7 { 31 }
    else if m == 8 { 31 }
    else if m == 9 { 30 }
    else if m == 10 { 31 }
    else if m == 11 { 30 }
    else { 31 }
}

/// The civil date of a day number: the unique valid date whose day count
/// equals `days`.
pub fn civil_from_days(days: u64) -> (r: (u64, u64, u64))
    requires
        days <= MAX_DAYS,
    ensures
        is_date_for(days as int, r.0 as int, r.1 as int, r.2 as int),
{
    let mut y: u64 = 1970;
    let mut rem: u64 = days;
    loop
        invariant
            y >= 1970,
            days <= MAX_DAYS,
            days_before_year(y as int) + rem == days,
            365 * (y - 1970) <= days,
        ensures
            y >= 1970,
            days_before_year(y as int) + rem == days,
            365 * (y - 1970) <= days,
            rem < days_in_year(y as int),
        decreases rem,
    {
        let diy = days_in_year_exec(y);
        if rem < diy {
            break;
        }
        proof {
            lemma_days_before_year_lower(y as int + 1);
            assert(days_before_year(y as int + 1) == days_before_year(y as int) + days_in_year(
                y as int,
            ));
        }
        rem = rem - diy;
        y = y + 1;
    }
    proof {
        assert(365 * (y - 1970) <= MAX_DAYS);
        assert(y <= 9998) by {
            if y >= 9999 {
                assert(365 * (y - 1970) >= 365 * 8029);
                assert(365 * 8029 == 2930585);
            }
        }
    }
    let mut m: u64 = 1;
    loop
        invariant
            1 <= m <= 12,
            rem < days_in_year(y as int) - days_before_month(y as int, m as int),
            days_before_year(y as int) + days_before_month(y as int, m as int) + rem == days,
            1970 <= y <= 9998,
        ensures
            1 <= m <= 12,
            rem < days_in_month(y as int, m as int),
            days_before_year(y as int) + days_before_month(y as int, m as int) + rem == days,
        decreases 12 - m,
    {
        let dim = days_in_month_exec(y, m);
        if rem < dim {
            break;
        }
        proof {
            if m == 12 {
                assert(days_before_month(y as int, 13) == days_in_year(y as int)) by {
                    reveal_with_fuel(days_before_month, 14);
                };
                assert(rem < days_in_month(y as int, 12));
                assert(false);
            }
        }
        rem = rem - dim;
        m = m + 1;
        proof {
            assert(days_before_month(y as int, m as int) == days_before_month(y as int, m as int
                - 1) + days_in_month(y as int, m as int - 1));
            assert(days_before_month(y as int, 13) == days_in_year(y as int)) by {
                reveal_with_fuel(days_before_month, 14);
            };
            assert(days_before_month(y as int, m as int) + days_in_month(y as int, m as int)
                <= days_in_year(y as int)) by {
                lemma_month_prefix_bound(y as int, m as int);
            };
        }
    }
    let d: u64 = rem + 1;
    (y, m, d)
}

proof fn lemma_days_before_year_monotone(y1: int, y2: int)
    requires
        1970 <= y1 <= y2,
    ensures
        days_before_year(y1) <= days_before_year(y2),
    decreases y2 - y1,
{
    if y1 < y2 {
        lemma_days_before_year_monotone(y1, y2 - 1);
    }
}

proof fn lemma_days_before_month_monotone(y: int, m1: int, m2: int)
    requires
        1 <= m1 <= m2,
    ensures
        days_before_month(y, m1) <= days_before_month(y, m2),
    decreases m2 - m1,
{
    if m1 < m2 {
        lemma_days_before_month_monotone(y, m1, m2 - 1);
        assert(days_in_month(y, m2 - 1) >= 28);
    }
}

/// The day of a valid date falls inside its year.
proof fn lemma_day_in_year(y: int, m: int, d: int)
    requires
        valid_date(y, m, d),
    ensures
        0 <= days_before_month(y, m) + (d - 1) < days_in_year(y),
{
    lemma_days_before_month_monotone(y, 1, m);
    lemma_month_prefix_bound(y, m);
}

/// A day number names at most one valid civil date.
pub proof fn lemma_civil_date_unique(y1: int, m1: int, d1: int, y2: int, m2: int, d2: int)
    requires
        valid_date(y1, m1, d1),
        valid_date(y2, m2, d2),
        civil_day_number(y1, m1, d1) == civil_day_number(y2, m2, d2),
    ensures
        y1 == y2,
        m1 == m2,
        d1 == d2,
{
    lemma_day_in_year(y1, m1, d1);
    lemma_day_in_year(y2, m2, d2);
    if y1 < y2 {
        assert(days_before_year(y1 + 1) == days_before_year(y1) + days_in_year(y1));
        lemma_days_before_year_monotone(y1 + 1, y2);
        assert(false);
    }
    if y2 < y1 {
        assert(days_before_year(y2 + 1) == days_before_year(y2) + days_in_year(y2));
        lemma_days_before_year_monotone(y2 + 1, y1);
        assert(false);
    }
    if m1 < m2 {
        assert(days_before_month(y1, m1 + 1) == days_before_month(y1, m1) + days_in_month(
            y1,
            m1,
        ));
        lemma_days_before_month_monotone(y1, m1 + 1, m2);
        assert(false);
    }
    if m2 < m1 {
        assert(days_before_month(y1, m2 + 1) == days_before_month(y1, m2) + days_in_month(
            y1,
            m2,
        ));
        lemma_days_before_month_monotone(y1, m2 + 1, m1);
        assert(false);
    }
}

/// The months of a year never run past its length.
proof fn lemma_month_prefix_bound(y: int, m: int)
    requires
        1 <= m <= 12,
    ensures
        days_before_month(y, m) + days_in_month(y, m) <= days_in_year(y),
    decreases 12 - m,
{
    if m == 12 {
        assert(days_before_month(y, 13) == days_in_year(y)) by {
            reveal_with_fuel(days_before_month, 14);
        };
    } else {
        lemma_month_prefix_bound(y, m + 1);
        assert(days_before_month(y, m + 1) == days_before_month(y, m) + days_in_month(y, m));
        assert(days_in_month(y, m + 1) >= 28);
    }
}

/// "YYYY-MM-DD".
pub open spec fn date_chars(y: int, m: int, d: int) -> Seq<char> {
    dec_4(y as nat) + seq!['-'] + dec_2(m as nat) + seq!['-'] + dec_2(d as nat)
}

/// "HH:MM:SS".
pub open spec fn time_chars(h: int, mi: int, se: int) -> Seq<char> {
    dec_2(h as nat) + seq![':'] + dec_2(mi as nat) + seq![':'] + dec_2(se as nat)
}

/// Seconds clamped into the exactly-rendered range.
pub open spec fn clamp_secs(secs: int) -> int {
    if secs > MAX_SECS { MAX_SECS as int } else { secs }
}

/// `s` is the "YYYY-MM-DD" rendering of the day that `secs` falls in.
pub open spec fn renders_day_of(s: Seq<char>, secs: int) -> bool {
    exists|y: int, m: int, d: int|
        is_date_for(clamp_secs(secs) / 86400, y, m, d) && s == date_chars(y, m, d)
}

/// `s` is the "YYYY-MM-DD HH:MM:SS UTC" rendering of the instant `secs`.
pub open spec fn renders_instant(s: Seq<char>, secs: int) -> bool {
    exists|y: int, m: int, d: int|
        is_date_for(clamp_secs(secs) / 86400, y, m, d) && s == date_chars(y, m, d) + seq![' ']
            + time_chars(
            clamp_secs(secs) % 86400 / 3600,
            clamp_secs(secs) % 86400 % 3600 / 60,
            clamp_secs(secs) % 86400 % 60,
        ) + seq![' ', 'U', 'T', 'C']
}

/// Day renderings are unambiguous: one instant has one "YYYY-MM-DD" form.
pub proof fn lemma_day_rendering_unique(s1: Seq<char>, s2: Seq<char>, secs: int)
    requires
        renders_day_of(s1, secs),
        renders_day_of(s2, secs),
    ensures
        s1 == s2,
{
    let (y1, m1, d1) = choose|y: int, m: int, d: int|
        is_date_for(clamp_secs(secs) / 86400, y, m, d) && s1 == date_chars(y, m, d);
    let (y2, m2, d2) = choose|y: int, m: int, d: int|
        is_date_for(clamp_secs(secs) / 86400, y, m, d) && s2 == date_chars(y, m, d);
    lemma_civil_date_unique(y1, m1, d1, y2, m2, d2);
}

/// Timestamp renderings are unambiguous as well.
pub proof fn lemma_instant_rendering_unique(s1: Seq<char>, s2: Seq<char>, secs: int)
    requires
        renders_instant(s1, secs),
        renders_instant(s2, secs),
    ensures
        s1 == s2,
{
    let cl = clamp_secs(secs);
    let (y1, m1, d1) = choose|y: int, m: int, d: int|
        is_date_for(cl / 86400, y, m, d) && s1 == date_chars(y, m, d) + seq![' '] + time_chars(
            cl % 86400 / 3600,
            cl % 86400 % 3600 / 60,
            cl % 86400 % 60,
        ) + seq![' ', 'U', 'T', 'C'];
    let (y2, m2, d2) = choose|y: int, m: int, d: int|
        is_date_for(cl / 86400, y, m, d) && s2 == date_chars(y, m, d) + seq![' '] + time_chars(
            cl % 86400 / 3600,
            cl % 86400 % 3600 / 60,
            cl % 86400 % 60,
        ) + seq![' ', 'U', 'T', 'C'];
    lemma_civil_date_unique(y1, m1, d1, y2, m2, d2);
}

/// Renders the calendar day of a Unix timestamp as "YYYY-MM-DD".
pub fn format_date(secs: u64) -> (r: String)
    ensures
        renders_day_of(r@, secs as int),
{
    let cl: u64 = if secs > MAX_SECS { MAX_SECS } else { secs };
    let days: u64 = cl / 86400;
    let (y, m, d) = civil_from_days(days);
    let mut out = String::new();
    append_4(&mut out, y);
    push_char(&mut out, '-');
    append_2(&mut out, m);
    push_char(&mut out, '-');
    append_2(&mut out, d);
    proof {
        assert(d <= 31);
        assert(out@ =~= date_chars(y as int, m as int, d as int));
    }
    out
}

/// Renders a Unix timestamp as "YYYY-MM-DD HH:MM:SS UTC".
pub fn format_datetime(secs: u64) -> (r: String)
    ensures
        renders_instant(r@, secs as int),
{
    let cl: u64 = if secs > MAX_SECS { MAX_SECS } else { secs };
    let days: u64 = cl / 86400;
    let tod: u64 = cl % 86400;
    let (y, m, d) = civil_from_days(days);
    let mut out = String::new();
    append_4(&mut out, y);
    push_char(&mut out, '-');
    append_2(&mut out, m);
    push_char(&mut out, '-');
    append_2(&mut out, d);
    push_char(&mut out, ' ');
    append_2(&mut out, tod / 3600);
    push_char(&mut out, ':');
    append_2(&mut out, tod % 3600 / 60);
    push_char(&mut out, ':');
    append_2(&mut out, tod % 60);
    push_char(&mut out, ' ');
    push_char(&mut out, 'U');
    push_char(&mut out, 'T');
    push_char(&mut out, 'C');
    proof {
        assert(out@ =~= date_chars(y as int, m as int, d as int) + seq![' '] + time_chars(
            tod as int / 3600,
            tod as int % 3600 / 60,
            tod as int % 60,
        ) + seq![' ', 'U', 'T', 'C']);
        assert(tod as int % 60 == clamp_secs(secs as int) % 86400 % 60);
    }
    out
}

} // verus!
