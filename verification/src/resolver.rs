//! The multi-source rate resolver.
//!
//! Sources are tried strictly in priority order; the first structurally
//! valid response wins and no merging ever happens.  When every source
//! fails, a built-in table re-based by cross-rate division stands in, so
//! resolution as a whole cannot fail.

use vstd::prelude::*;
use vstd::string::*;
use crate::calendar::{format_date, renders_day_of};
use crate::parse::{parse_source, source_ok, source_table};
use crate::rates::{RateMap, ExchangeRates, rescale};
use crate::strutil::{str_eq, lower_ascii, lower_chars};
use crate::decimal::SCALE;

verus! {

/// How many remote sources the chain knows.
pub const SOURCE_COUNT: usize = 4;

/// The built-in table, relative to "EUR", in micro units.
pub open spec fn mock_rates_eur() -> Map<Seq<char>, int> {
    Map::empty()
        .insert("USD"@, 1080000)
        .insert("EUR"@, 1000000)
        .insert("GBP"@, 850000)
        .insert("JPY"@, 160000000)
        .insert("CAD"@, 1470000)
        .insert("AUD"@, 1630000)
        .insert("CHF"@, 970000)
        .insert("CNY"@, 7800000)
        .insert("PLN"@, 4260000)
        .insert("UAH"@, 42500000)
}

/// The built-in rate of a base code, defaulting to one for codes outside
/// the table.
pub open spec fn mock_base_rate(base: Seq<char>) -> int {
    if mock_rates_eur().contains_key(base) {
        mock_rates_eur()[base]
    } else {
        1000000
    }
}

/// The built-in table re-based by cross-rate division:
/// `rate'[c] == rate[c] / rate[base]`.
pub open spec fn mock_map(base: Seq<char>) -> Map<Seq<char>, int> {
    if base == "EUR"@ {
        mock_rates_eur()
    } else {
        Map::new(
            |k: Seq<char>| mock_rates_eur().contains_key(k),
            |k: Seq<char>| rescale(mock_rates_eur()[k], mock_base_rate(base)),
        )
    }
}

/// The fallback table always offers at least the ten built-in codes,
/// whatever the base: resolution never comes back empty.
pub proof fn lemma_mock_nonempty(base: Seq<char>)
    ensures
        mock_map(base).contains_key("EUR"@),
        mock_map(base).contains_key("USD"@),
{
}

/// The re-basing law of the fallback table: every rate is the built-in rate
/// divided by the base's built-in rate, and in particular the base's own
/// rate is exactly one.
pub proof fn lemma_mock_rebase(base: Seq<char>)
    requires
        mock_rates_eur().contains_key(base),
    ensures
        forall|c: Seq<char>|
            mock_rates_eur().contains_key(c) ==> #[trigger] mock_map(base)[c] == rescale(
                mock_rates_eur()[c],
                mock_rates_eur()[base],
            ),
        mock_map(base)[base] == 1000000,
{
    broadcast use vstd::string::group_string_axioms;

    reveal_strlit("USD");
    reveal_strlit("EUR");
    reveal_strlit("GBP");
    reveal_strlit("JPY");
    reveal_strlit("CAD");
    reveal_strlit("AUD");
    reveal_strlit("CHF");
    reveal_strlit("CNY");
    reveal_strlit("PLN");
    reveal_strlit("UAH");
    assert("EUR"@[0] == 'E');
    assert("UAH"@[0] == 'U');
    let b = mock_rates_eur()[base];
    assert(b > 0);
    assert forall|c: Seq<char>| mock_rates_eur().contains_key(c) implies #[trigger] mock_map(
        base,
    )[c] == rescale(mock_rates_eur()[c], b) by {
        if base == "EUR"@ {
            assert(mock_map(base)[c] == mock_rates_eur()[c]);
            let v = mock_rates_eur()[c];
            assert(0 <= v <= 160000000);
            vstd::arithmetic::div_mod::lemma_div_multiples_vanish(v, 1000000);
            assert((1000000 * v) / 1000000 == v);
            assert(v * 1000000 == 1000000 * v) by (nonlinear_arith);
            assert(crate::rates::div_toward_zero(v * 1000000, 1000000) == v);
            assert(rescale(v, 1000000) == v);
            assert(b == 1000000);
        } else {
            assert(mock_map(base)[c] == rescale(mock_rates_eur()[c], mock_base_rate(base)));
            assert(mock_base_rate(base) == b);
        }
    }
    vstd::arithmetic::div_mod::lemma_div_multiples_vanish(1000000, b);
    assert((b * 1000000) / b == 1000000);
}

/// What the fallback table looks like for a base and a clock reading.
pub open spec fn is_mock_table(t: ExchangeRates, base: Seq<char>, now: u64) -> bool {
    &&& t.wf()
    &&& t.success
    &&& t.timestamp == Some(now)
    &&& t.base matches Some(b) && b@ == base
    &&& t.date matches Some(ds) && renders_day_of(ds@, now as int)
    &&& t.rates@ == mock_map(base)
}

/// The built-in fallback table, re-based to `base`.
pub fn mock_table(base: &str, now: u64) -> (t: ExchangeRates)
    ensures
        is_mock_table(t, base@, now),
{
    let mut rm = RateMap::new();
    rm.insert(String::from_str("USD"), 1080000);
    rm.insert(String::from_str("EUR"), 1000000);
    rm.insert(String::from_str("GBP"), 850000);
    rm.insert(String::from_str("JPY"), 160000000);
    rm.insert(String::from_str("CAD"), 1470000);
    rm.insert(String::from_str("AUD"), 1630000);
    rm.insert(String::from_str("CHF"), 970000);
    rm.insert(String::from_str("CNY"), 7800000);
    rm.insert(String::from_str("PLN"), 4260000);
    rm.insert(String::from_str("UAH"), 42500000);
    assert(rm@ == mock_rates_eur());
    let rates = if !str_eq(base, "EUR") {
        let base_rate: i64 = match rm.get(base) {
            Some(v) => v,
            None => SCALE,
        };
        assert(base_rate as int == mock_base_rate(base@));
        assert(base_rate > 0);
        let rebased = rm.rebase(base_rate);
        proof {
            assert(rebased@ =~= mock_map(base@));
        }
        rebased
    } else {
        rm
    };
    ExchangeRates {
        success: true,
        timestamp: Some(now),
        base: Some(base.to_owned()),
        date: Some(format_date(now)),
        rates,
    }
}

/// The request URL of a source, or `None` when the source is not attempted
/// (the key-required source without a key; indexes past the chain).
pub open spec fn url_of(idx: int, base: Seq<char>, key: Seq<char>) -> Option<Seq<char>> {
    if idx == 0 {
        Some("https://open.er-api.com/v6/latest/"@ + base)
    } else if idx == 1 {
        Some(
            "https://cdn.jsdelivr.net/gh/fawazahmed0/currency-api@1/latest/currencies/"@
                + lower_chars(base) + ".json"@,
        )
    } else if idx == 2 {
        Some("https://api.frankfurter.app/latest?from="@ + base)
    } else if idx == 3 {
        if key.len() == 0 {
            None
        } else {
            Some("https://api.exchangerate.host/latest?base="@ + base + "&access_key="@ + key)
        }
    } else {
        None
    }
}

/// Builds the URL a source is queried at.
pub fn source_url(idx: usize, base: &str, api_key: &str) -> (r: Option<String>)
    ensures
        r is Some <==> url_of(idx as int, base@, api_key@) is Some,
        r matches Some(s) ==> url_of(idx as int, base@, api_key@) == Some(s@),
{
    if idx == 0 {
        let mut u = String::from_str("https://open.er-api.com/v6/latest/");
        u.append(base);
        Some(u)
    } else if idx == 1 {
        let mut u = String::from_str(
            "https://cdn.jsdelivr.net/gh/fawazahmed0/currency-api@1/latest/currencies/",
        );
        let lower = lower_ascii(base);
        u.append(lower.as_str());
        u.append(".json");
        Some(u)
    } else if idx == 2 {
        let mut u = String::from_str("https://api.frankfurter.app/latest?from=");
        u.append(base);
        Some(u)
    } else if idx == 3 {
        if api_key.is_empty() {
            None
        } else {
            let mut u = String::from_str("https://api.exchangerate.host/latest?base=");
            u.append(base);
            u.append("&access_key=");
            u.append(api_key);
            Some(u)
        }
    } else {
        None
    }
}

/// Picks the first successful attempt, in priority order; with none, the
/// built-in fallback.  First success wins: nothing after it is consulted
/// and nothing is merged.
pub fn select_table(attempts: &mut Vec<Option<ExchangeRates>>, base: &str, now: u64) -> (r:
    ExchangeRates)
    requires
        forall|i: int|
            0 <= i < old(attempts)@.len() ==> ((#[trigger] old(attempts)@[i]) matches Some(t)
                ==> t.wf() && t.success),
    ensures
        r.wf(),
        r.success,
        (forall|i: int| 0 <= i < old(attempts)@.len() ==> (#[trigger] old(attempts)@[i]) is None)
            ==> is_mock_table(r, base@, now),
        (exists|i: int|
            0 <= i < old(attempts)@.len() && (#[trigger] old(attempts)@[i]) is Some) ==> exists|
            i: int,
        |
            0 <= i < old(attempts)@.len() && (#[trigger] old(attempts)@[i]) == Some(r) && (forall|
                j: int,
            | 0 <= j < i ==> old(attempts)@[j] is None),
{
    let ghost orig = old(attempts)@;
    let n: usize = attempts.len();
    let mut i: usize = 0;
    loop
        invariant
            attempts@ == orig,
            orig.len() == n,
            i <= n,
            forall|j: int| 0 <= j < i ==> orig[j] is None,
            forall|t: int|
                0 <= t < orig.len() ==> ((#[trigger] orig[t]) matches Some(x) ==> x.wf()
                    && x.success),
        ensures
            attempts@ == orig,
            i <= n,
            i < n ==> orig[i as int] is Some && (forall|j: int| 0 <= j < i ==> orig[j] is None),
            i == n ==> forall|j: int| 0 <= j < orig.len() ==> orig[j] is None,
        decreases n - i,
    {
        if i >= n {
            break;
        }
        if attempts[i].is_some() {
            break;
        }
        i = i + 1;
    }
    proof {
        assert(orig == old(attempts)@);
    }
    if i < n {
        let a = attempts.remove(i);
        match a {
            Some(t) => {
                proof {
                    assert(old(attempts)@[i as int] == Some(t));
                    assert(exists|ii: int|
                        0 <= ii < old(attempts)@.len() && (#[trigger] old(attempts)@[ii])
                            == Some(t) && (forall|j: int|
                            0 <= j < ii ==> old(attempts)@[j] is None));
                    assert(old(attempts)@[i as int] is Some);
                }
                t
            },
            None => {
                proof {
                    assert(false);
                }
                vstd::pervasive::unreached()
            },
        }
    } else {
        mock_table(base, now)
    }
}

/// A source hits when its response arrived, its shape is accepted, and the
/// key-required source has a key.
pub open spec fn attempt_hit(
    idx: int,
    responses: Seq<Option<String>>,
    base: Seq<char>,
    key: Seq<char>,
) -> bool {
    &&& 0 <= idx < responses.len()
    &&& responses[idx] matches Some(b) && source_ok(idx, b@, base)
    &&& (idx == 3 ==> key.len() > 0)
}

/// Whether any source in the chain hits.
pub open spec fn any_hit(responses: Seq<Option<String>>, base: Seq<char>, key: Seq<char>) -> bool {
    exists|i: int| #[trigger] attempt_hit(i, responses, base, key)
}

/// What resolution returns, as a function of the ordered responses: the
/// table described by the first source that hits, else the fallback table.
pub open spec fn resolves_to(
    r: ExchangeRates,
    base: Seq<char>,
    key: Seq<char>,
    responses: Seq<Option<String>>,
    now: u64,
) -> bool {
    if any_hit(responses, base, key) {
        exists|i: int|
            {
                &&& #[trigger] attempt_hit(i, responses, base, key)
                &&& forall|j: int| 0 <= j < i ==> !attempt_hit(j, responses, base, key)
                &&& responses[i] matches Some(b) && source_table(r, i, b@, base, now)
            }
    } else {
        is_mock_table(r, base, now)
    }
}

/// Resolves a rate table from the responses the transport produced, one
/// per source, `None` standing for a transport failure or a source not
/// attempted.
pub fn resolve_with_responses(
    base: &str,
    api_key: &str,
    responses: &Vec<Option<String>>,
    now: u64,
) -> (r: ExchangeRates)
    requires
        responses@.len() == SOURCE_COUNT,
    ensures
        r.wf(),
        r.success,
        resolves_to(r, base@, api_key@, responses@, now),
{
    let mut attempts: Vec<Option<ExchangeRates>> = Vec::new();
    let mut idx: usize = 0;
    while idx < SOURCE_COUNT
        invariant
            idx <= SOURCE_COUNT,
            responses@.len() == SOURCE_COUNT,
            attempts@.len() == idx,
            forall|t: int|
                0 <= t < idx ==> ((#[trigger] attempts@[t]) is Some <==> attempt_hit(
                    t,
                    responses@,
                    base@,
                    api_key@,
                )),
            forall|t: int|
                0 <= t < idx ==> ((#[trigger] attempts@[t]) matches Some(x) ==> x.wf()
                    && x.success && (responses@[t] matches Some(b) && source_table(
                    x,
                    t,
                    b@,
                    base@,
                    now,
                ))),
        decreases SOURCE_COUNT - idx,
    {
        let att: Option<ExchangeRates> = match &responses[idx] {
            Some(body) => {
                if idx == 3 && api_key.is_empty() {
                    None
                } else {
                    parse_source(idx, body.as_str(), base, now)
                }
            },
            None => None,
        };
        proof {
            assert(att is Some <==> attempt_hit(idx as int, responses@, base@, api_key@));
        }
        attempts.push(att);
        idx = idx + 1;
    }
    let ghost orig = attempts@;
    proof {
        assert(forall|t: int|
            0 <= t < SOURCE_COUNT ==> ((#[trigger] orig[t]) is Some <==> attempt_hit(
                t,
                responses@,
                base@,
                api_key@,
            )));
        assert(forall|t: int|
            0 <= t < SOURCE_COUNT ==> ((#[trigger] orig[t]) matches Some(x) ==> (
            responses@[t] matches Some(b) && source_table(x, t, b@, base@, now))));
    }
    let r = select_table(&mut attempts, base, now);
    proof {
        if exists|i: int| 0 <= i < orig.len() && (#[trigger] orig[i]) is Some {
            let i = choose|i: int|
                0 <= i < orig.len() && (#[trigger] orig[i]) == Some(r) && (forall|j: int|
                    0 <= j < i ==> orig[j] is None);
            assert(attempt_hit(i, responses@, base@, api_key@));
            assert forall|j: int| 0 <= j < i implies !attempt_hit(
                j,
                responses@,
                base@,
                api_key@,
            ) by {
                assert(orig[j] is None);
            }
            assert(any_hit(responses@, base@, api_key@));
        } else {
            assert(forall|t: int|
                0 <= t < orig.len() ==> !((#[trigger] orig[t]) is Some));
            assert forall|t: int|
                0 <= t < SOURCE_COUNT implies !attempt_hit(t, responses@, base@, api_key@) by {
                assert(!(orig[t] is Some));
            }
            assert(!any_hit(responses@, base@, api_key@)) by {
                if any_hit(responses@, base@, api_key@) {
                    let i = choose|i: int| #[trigger] attempt_hit(i, responses@, base@, api_key@);
                    assert(0 <= i < SOURCE_COUNT);
                    assert(false);
                }
            }
        }
    }
    r
}

/// Two resolutions over the same responses agree in every observable field:
/// resolution is a pure function of the base, the key, the responses and
/// the clock reading.
pub proof fn lemma_resolution_deterministic(
    r1: ExchangeRates,
    r2: ExchangeRates,
    base: Seq<char>,
    key: Seq<char>,
    responses: Seq<Option<String>>,
    now: u64,
)
    requires
        resolves_to(r1, base, key, responses, now),
        resolves_to(r2, base, key, responses, now),
    ensures
        r1.rates@ == r2.rates@,
        r1.success == r2.success,
        r1.timestamp == r2.timestamp,
        r1.base is Some <==> r2.base is Some,
        r1.base matches Some(b1) ==> (r2.base matches Some(b2) && b1@ == b2@),
        r1.date is Some <==> r2.date is Some,
        r1.date matches Some(d1) ==> (r2.date matches Some(d2) && d1@ == d2@),
{
    if any_hit(responses, base, key) {
        let i1 = choose|i: int|
            {
                &&& #[trigger] attempt_hit(i, responses, base, key)
                &&& forall|j: int| 0 <= j < i ==> !attempt_hit(j, responses, base, key)
                &&& responses[i] matches Some(b) && source_table(r1, i, b@, base, now)
            };
        let i2 = choose|i: int|
            {
                &&& #[trigger] attempt_hit(i, responses, base, key)
                &&& forall|j: int| 0 <= j < i ==> !attempt_hit(j, responses, base, key)
                &&& responses[i] matches Some(b) && source_table(r2, i, b@, base, now)
            };
        assert(i1 == i2) by {
            if i1 < i2 {
                assert(!attempt_hit(i1, responses, base, key));
            }
            if i2 < i1 {
                assert(!attempt_hit(i2, responses, base, key));
            }
        }
        if i1 == 1 {
            assert(r1.date matches Some(d1) && r2.date matches Some(d2) && d1@ == d2@) by {
                let d1 = r1.date->0;
                let d2 = r2.date->0;
                crate::calendar::lemma_day_rendering_unique(d1@, d2@, now as int);
            }
        }
    } else {
        assert(is_mock_table(r1, base, now));
        assert(is_mock_table(r2, base, now));
        let d1 = r1.date->0;
        let d2 = r2.date->0;
        crate::calendar::lemma_day_rendering_unique(d1@, d2@, now as int);
    }
}

/// Relies on `std::time::SystemTime::now` and `duration_since` for the wall
/// clock; a clock set before the epoch reads as zero, so the call cannot
/// panic.  Nothing is assumed of the value.
#[verifier::external_body]
fn now_unix_raw() -> u64 {
    match std::time::SystemTime::now().duration_since(std::time::UNIX_EPOCH) {
        Ok(d) => d.as_secs(),
        Err(_) => 0,
    }
}

/// The wall clock as Unix seconds.
pub fn now_unix() -> u64 {
    now_unix_raw()
}

} // verus!
