//! Normalizers for the rate feeds.
//!
//! Each remote source answers JSON in its own shape; each parser here checks
//! that shape and produces the one canonical `ExchangeRates`.  The JSON reads
//! go through the named trusted wrappers in `json`, so a parser's whole
//! behaviour is pinned as a function of the response body: `source_N_ok`
//! says exactly when it accepts, and `source_N_table` what it builds.

use vstd::prelude::*;
use vstd::string::*;
use crate::calendar::{format_date, renders_day_of};
use crate::decimal::{parse_number, number_spec};
use crate::json::{json_members, json_string_member, json_u64_member, json_bool_member,
    entry_views, object_members, string_member, u64_member, bool_member};
use crate::rates::{RateMap, ExchangeRates};
use crate::strutil::{upper_ascii, upper_chars, lower_ascii, lower_chars};

verus! {

/// The rate map described by a list of JSON object members: members whose
/// text parses as a number contribute an entry, later members
/// overriding earlier ones; codes are optionally ASCII-uppercased.
pub open spec fn rates_of(s: Seq<(Seq<char>, Seq<char>)>, up: bool) -> Map<Seq<char>, int>
    decreases s.len(),
{
    if s.len() == 0 {
        Map::empty()
    } else {
        let m = rates_of(s.drop_last(), up);
        let key = if up {
            upper_chars(s.last().0)
        } else {
            s.last().0
        };
        match number_spec(s.last().1) {
            Some(v) => m.insert(key, v),
            None => m,
        }
    }
}

/// Every member's text parses as a number.
pub open spec fn all_numeric(s: Seq<(Seq<char>, Seq<char>)>) -> bool {
    forall|i: int| 0 <= i < s.len() ==> number_spec((#[trigger] s[i]).1) is Some
}

/// Builds the canonical rate map from extracted object members.
pub fn build_rate_map(entries: &Vec<(String, String)>, uppercase: bool) -> (r: RateMap)
    ensures
        r.wf(),
        r@ == rates_of(entry_views(entries@), uppercase),
{
    let ghost ev = entry_views(entries@);
    let mut rm = RateMap::new();
    let n = entries.len();
    let mut i: usize = 0;
    assert(ev.take(0) =~= Seq::<(Seq<char>, Seq<char>)>::empty());
    while i < n
        invariant
            i <= n,
            n == entries@.len(),
            ev == entry_views(entries@),
            ev.len() == n,
            rm.wf(),
            rm@ == rates_of(ev.take(i as int), uppercase),
        decreases n - i,
    {
        let key = if uppercase {
            upper_ascii(entries[i].0.as_str())
        } else {
            entries[i].0.clone()
        };
        match parse_number(entries[i].1.as_str()) {
            Some(v) => {
                rm.insert(key, v);
            },
            None => {},
        }
        proof {
            assert(ev.take(i + 1).drop_last() =~= ev.take(i as int));
            assert(ev.take(i + 1).last() == ev[i as int]);
            assert(ev[i as int] == (entries@[i as int].0@, entries@[i as int].1@));
        }
        i = i + 1;
    }
    proof {
        assert(ev.take(n as int) =~= ev);
    }
    rm
}

/// Whether every member text parses as a decimal number.
pub fn all_rates_numeric(entries: &Vec<(String, String)>) -> (r: bool)
    ensures
        r == all_numeric(entry_views(entries@)),
{
    let ghost ev = entry_views(entries@);
    let n = entries.len();
    let mut i: usize = 0;
    while i < n
        invariant
            i <= n,
            n == entries@.len(),
            ev == entry_views(entries@),
            ev.len() == n,
            forall|t: int| 0 <= t < i ==> number_spec((#[trigger] ev[t]).1) is Some,
        decreases n - i,
    {
        proof {
            assert(ev[i as int].1 == entries@[i as int].1@);
        }
        if parse_number(entries[i].1.as_str()).is_none() {
            assert(number_spec(ev[i as int].1) is None);
            return false;
        }
        i = i + 1;
    }
    true
}

/// When the keyless base-in-path source accepts a body.
pub open spec fn source_a_ok(body: Seq<char>) -> bool {
    json_members(body, "rates"@) is Some
}

/// The table the base-in-path source builds from a body it accepts: the
/// retrieval time is the upstream update time when the body carries one,
/// else the clock reading.
pub open spec fn source_a_table(
    t: ExchangeRates,
    body: Seq<char>,
    base: Seq<char>,
    now: u64,
) -> bool {
    &&& t.wf()
    &&& t.success
    &&& t.base matches Some(b) && b@ == base
    &&& json_members(body, "rates"@) matches Some(ms) && t.rates@ == rates_of(ms, false)
    &&& match json_u64_member(body, "time_last_update_unix"@) {
        Some(u) => t.timestamp == Some(u),
        None => t.timestamp == Some(now),
    }
    &&& match json_string_member(body, "time_last_update_utc"@) {
        Some(d) => t.date matches Some(x) && x@ == d,
        None => t.date is None,
    }
}

/// The keyless base-in-path source: a JSON object with a `rates` member of
/// `code -> number`, and optional upstream update fields.
pub fn parse_source_a(body: &str, base: &str, now: u64) -> (r: Option<ExchangeRates>)
    ensures
        r is Some <==> source_a_ok(body@),
        r matches Some(t) ==> source_a_table(t, body@, base@, now),
{
    let entries = match object_members(body, "rates") {
        Some(es) => es,
        None => { return None; },
    };
    let rm = build_rate_map(&entries, false);
    let timestamp = match u64_member(body, "time_last_update_unix") {
        Some(u) => Some(u),
        None => Some(now),
    };
    let date = string_member(body, "time_last_update_utc");
    Some(ExchangeRates {
        success: true,
        timestamp,
        base: Some(base.to_owned()),
        date,
        rates: rm,
    })
}

/// When the keyless per-base blob source accepts a body.
pub open spec fn source_b_ok(body: Seq<char>, base: Seq<char>) -> bool {
    json_members(body, lower_chars(base)) is Some
}

/// The table the per-base blob source builds from a body it accepts.
pub open spec fn source_b_table(
    t: ExchangeRates,
    body: Seq<char>,
    base: Seq<char>,
    now: u64,
) -> bool {
    &&& t.wf()
    &&& t.success
    &&& t.base matches Some(b) && b@ == base
    &&& json_members(body, lower_chars(base)) matches Some(ms) && t.rates@ == rates_of(ms, true)
    &&& t.timestamp == Some(now)
    &&& t.date matches Some(ds) && renders_day_of(ds@, now as int)
}

/// The keyless per-base blob source: a JSON object keyed by the lowercased
/// base code, whose member codes are uppercased on ingestion.
pub fn parse_source_b(body: &str, base: &str, now: u64) -> (r: Option<ExchangeRates>)
    ensures
        r is Some <==> source_b_ok(body@, base@),
        r matches Some(t) ==> source_b_table(t, body@, base@, now),
{
    let lower = lower_ascii(base);
    let entries = match object_members(body, lower.as_str()) {
        Some(es) => es,
        None => { return None; },
    };
    let rm = build_rate_map(&entries, true);
    let date = format_date(now);
    Some(ExchangeRates {
        success: true,
        timestamp: Some(now),
        base: Some(base.to_owned()),
        date: Some(date),
        rates: rm,
    })
}

/// When the keyless query-based source accepts a body.
pub open spec fn source_c_ok(body: Seq<char>) -> bool {
    json_members(body, "rates"@) is Some
}

/// The table the query-based source builds from a body it accepts.
pub open spec fn source_c_table(
    t: ExchangeRates,
    body: Seq<char>,
    base: Seq<char>,
    now: u64,
) -> bool {
    &&& t.wf()
    &&& t.success
    &&& t.base matches Some(b) && b@ == base
    &&& json_members(body, "rates"@) matches Some(ms) && t.rates@ == rates_of(ms, false)
    &&& t.timestamp == Some(now)
    &&& match json_string_member(body, "date"@) {
        Some(d) => t.date matches Some(x) && x@ == d,
        None => t.date is None,
    }
}

/// The keyless query-based source: a `rates` member plus an optional `date`
/// member consumed verbatim.
pub fn parse_source_c(body: &str, base: &str, now: u64) -> (r: Option<ExchangeRates>)
    ensures
        r is Some <==> source_c_ok(body@),
        r matches Some(t) ==> source_c_table(t, body@, base@, now),
{
    let entries = match object_members(body, "rates") {
        Some(es) => es,
        None => { return None; },
    };
    let rm = build_rate_map(&entries, false);
    let date = string_member(body, "date");
    Some(ExchangeRates {
        success: true,
        timestamp: Some(now),
        base: Some(base.to_owned()),
        date,
        rates: rm,
    })
}

/// When the key-required source accepts a body: the envelope's `success`
/// member must be the boolean true, the `rates` member an object, and every
/// rate numeric.
pub open spec fn source_d_ok(body: Seq<char>) -> bool {
    &&& json_bool_member(body, "success"@) == Some(true)
    &&& json_members(body, "rates"@) matches Some(ms) && all_numeric(ms)
}

/// The table the key-required source builds from a body it accepts: the
/// retrieval time is the envelope's own timestamp when it carries one, else
/// the clock reading; base and date come from the envelope.
pub open spec fn source_d_table(t: ExchangeRates, body: Seq<char>, now: u64) -> bool {
    &&& t.wf()
    &&& t.success
    &&& json_members(body, "rates"@) matches Some(ms) && t.rates@ == rates_of(ms, false)
    &&& match json_u64_member(body, "timestamp"@) {
        Some(u) => t.timestamp == Some(u),
        None => t.timestamp == Some(now),
    }
    &&& match json_string_member(body, "base"@) {
        Some(b) => t.base matches Some(x) && x@ == b,
        None => t.base is None,
    }
    &&& match json_string_member(body, "date"@) {
        Some(d) => t.date matches Some(x) && x@ == d,
        None => t.date is None,
    }
}

/// The key-required source: a `{ success, rates, ... }` envelope, accepted
/// only when `success` is true and every rate is numeric.
pub fn parse_source_d(body: &str, now: u64) -> (r: Option<ExchangeRates>)
    ensures
        r is Some <==> source_d_ok(body@),
        r matches Some(t) ==> source_d_table(t, body@, now),
{
    let success = match bool_member(body, "success") {
        Some(b) => b,
        None => { return None; },
    };
    if !success {
        return None;
    }
    let entries = match object_members(body, "rates") {
        Some(es) => es,
        None => { return None; },
    };
    if !all_rates_numeric(&entries) {
        return None;
    }
    let rm = build_rate_map(&entries, false);
    let timestamp = match u64_member(body, "timestamp") {
        Some(u) => Some(u),
        None => Some(now),
    };
    let base_field = string_member(body, "base");
    let date = string_member(body, "date");
    Some(ExchangeRates {
        success: true,
        timestamp,
        base: base_field,
        date,
        rates: rm,
    })
}

/// When the source at an index accepts a body.
pub open spec fn source_ok(idx: int, body: Seq<char>, base: Seq<char>) -> bool {
    if idx == 0 {
        source_a_ok(body)
    } else if idx == 1 {
        source_b_ok(body, base)
    } else if idx == 2 {
        source_c_ok(body)
    } else if idx == 3 {
        source_d_ok(body)
    } else {
        false
    }
}

/// The table the source at an index builds from a body it accepts.
pub open spec fn source_table(
    t: ExchangeRates,
    idx: int,
    body: Seq<char>,
    base: Seq<char>,
    now: u64,
) -> bool {
    if idx == 0 {
        source_a_table(t, body, base, now)
    } else if idx == 1 {
        source_b_table(t, body, base, now)
    } else if idx == 2 {
        source_c_table(t, body, base, now)
    } else if idx == 3 {
        source_d_table(t, body, now)
    } else {
        false
    }
}

/// Dispatches one response body to the parser of the source it came from.
pub fn parse_source(idx: usize, body: &str, base: &str, now: u64) -> (r: Option<ExchangeRates>)
    ensures
        r is Some <==> source_ok(idx as int, body@, base@),
        r matches Some(t) ==> source_table(t, idx as int, body@, base@, now),
{
    if idx == 0 {
        parse_source_a(body, base, now)
    } else if idx == 1 {
        parse_source_b(body, base, now)
    } else if idx == 2 {
        parse_source_c(body, base, now)
    } else if idx == 3 {
        parse_source_d(body, now)
    } else {
        None
    }
}

} // verus!
