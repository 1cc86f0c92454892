//! The two operations derived from a resolved rate table: converting an
//! amount and listing the available currencies.

use vstd::prelude::*;
use vstd::string::*;
use vstd::multiset::Multiset;
use vstd::relations::{sorted_by, total_ordering};
use vstd::seq_lib::lemma_sorted_unique;
use vstd::arithmetic::mul::{lemma_mul_upper_bound, lemma_mul_unary_negation, lemma_mul_inequality,
    lemma_mul_cancels_negatives};
use crate::calendar::{format_datetime, renders_instant};
use crate::decimal::{format_micro, format_micro_2dp};
use crate::rates::{ExchangeRates, clamp_i64, div_toward_zero};
use crate::resolver::{resolves_to, lemma_resolution_deterministic};
use crate::strutil::{str_lt, lex_lt};

verus! {

/// Lexicographic order, weakly.
pub open spec fn lex_leq(a: Seq<char>, b: Seq<char>) -> bool {
    lex_lt(a, b) || a == b
}

/// Weakly ascending lexicographic order throughout a list.
pub open spec fn lex_sorted(s: Seq<Seq<char>>) -> bool {
    forall|i: int, j: int| 0 <= i < j < s.len() ==> lex_leq(#[trigger] s[i], #[trigger] s[j])
}

proof fn lemma_lex_asym(a: Seq<char>, b: Seq<char>)
    requires
        lex_lt(a, b),
    ensures
        !lex_lt(b, a),
        a != b,
    decreases a.len(),
{
    if b.len() == 0 {
    } else if a.len() == 0 {
    } else if a[0] != b[0] {
    } else {
        lemma_lex_asym(a.skip(1), b.skip(1));
        if a == b {
            assert(a.skip(1) == b.skip(1));
        }
    }
}

proof fn lemma_lex_trans(a: Seq<char>, b: Seq<char>, c: Seq<char>)
    requires
        lex_lt(a, b),
        lex_lt(b, c),
    ensures
        lex_lt(a, c),
    decreases a.len(),
{
    if c.len() == 0 {
    } else if b.len() == 0 {
    } else if a.len() == 0 {
    } else {
        if a[0] != b[0] {
            if b[0] != c[0] {
            } else {
            }
        } else {
            if b[0] != c[0] {
            } else {
                lemma_lex_trans(a.skip(1), b.skip(1), c.skip(1));
            }
        }
    }
}

proof fn lemma_lex_connected(a: Seq<char>, b: Seq<char>)
    ensures
        lex_lt(a, b) || lex_lt(b, a) || a == b,
    decreases a.len(),
{
    if b.len() == 0 {
        if a.len() == 0 {
            assert(a =~= b);
        }
    } else if a.len() == 0 {
    } else if a[0] != b[0] {
    } else {
        lemma_lex_connected(a.skip(1), b.skip(1));
        if a.skip(1) == b.skip(1) {
            assert(a.skip(1).len() == a.len() - 1);
            assert(b.skip(1).len() == b.len() - 1);
            assert(a.len() == b.len());
            assert forall|i: int| 0 <= i < a.len() implies a[i] == b[i] by {
                if i >= 1 {
                    assert(a[i] == a.skip(1)[i - 1]);
                    assert(b[i] == b.skip(1)[i - 1]);
                }
            }
            assert(a =~= b);
        }
    }
}

/// Weak lexicographic order is a total order on character sequences.
pub proof fn lemma_lex_total_ordering()
    ensures
        total_ordering(|a: Seq<char>, b: Seq<char>| lex_leq(a, b)),
{
    let leq = |a: Seq<char>, b: Seq<char>| lex_leq(a, b);
    assert forall|a: Seq<char>, b: Seq<char>| #[trigger] leq(a, b) && #[trigger] leq(b, a)
        implies a == b by {
        if lex_lt(a, b) {
            lemma_lex_asym(a, b);
        }
    }
    assert forall|a: Seq<char>, b: Seq<char>, c: Seq<char>| #[trigger] leq(a, b) && #[trigger]
        leq(b, c) implies leq(a, c) by {
        if lex_lt(a, b) && lex_lt(b, c) {
            lemma_lex_trans(a, b, c);
        }
    }
    assert forall|a: Seq<char>, b: Seq<char>| true implies #[trigger] leq(a, b) || #[trigger]
        leq(b, a) by {
        lemma_lex_connected(a, b);
    }
}

/// The views of the strings in a list.
pub open spec fn string_views(s: Seq<String>) -> Seq<Seq<char>> {
    s.map_values(|x: String| x@)
}

/// Sorts a list of strings lexicographically, keeping its contents.
pub fn sort_strings(v: &mut Vec<String>)
    ensures
        lex_sorted(string_views(final(v)@)),
        string_views(final(v)@).to_multiset() == string_views(old(v)@).to_multiset(),
{
    broadcast use vstd::multiset::group_multiset_axioms;

    let ghost orig = old(v)@;
    let mut out: Vec<String> = Vec::new();
    proof {
        vstd::seq_lib::to_multiset_len(string_views(out@));
        vstd::multiset::lemma_multiset_empty_len(string_views(out@).to_multiset());
        assert(string_views(out@).to_multiset().add(string_views(v@).to_multiset())
            =~= string_views(orig).to_multiset());
    }
    while v.len() > 0
        invariant
            string_views(out@).to_multiset().add(string_views(v@).to_multiset())
                == string_views(orig).to_multiset(),
            lex_sorted(string_views(out@)),
            forall|p: int, q: int|
                0 <= p < out@.len() && 0 <= q < v@.len() ==> lex_leq(
                    (#[trigger] out@[p])@,
                    (#[trigger] v@[q])@,
                ),
        decreases v@.len(),
    {
        let n = v.len();
        let mut mi: usize = 0;
        let mut k: usize = 1;
        while k < n
            invariant
                n == v@.len(),
                n > 0,
                mi < k <= n,
                forall|t: int| 0 <= t < k ==> lex_leq((#[trigger] v@[mi as int])@, (v@[t])@),
            decreases n - k,
        {
            if str_lt(v[k].as_str(), v[mi].as_str()) {
                proof {
                    assert forall|t: int| 0 <= t < k implies lex_leq(
                        (v@[k as int])@,
                        (#[trigger] v@[t])@,
                    ) by {
                        if lex_lt((v@[mi as int])@, (v@[t])@) {
                            lemma_lex_trans((v@[k as int])@, (v@[mi as int])@, (v@[t])@);
                        }
                    }
                }
                mi = k;
            } else {
                proof {
                    lemma_lex_connected((v@[k as int])@, (v@[mi as int])@);
                }
            }
            k = k + 1;
        }
        let ghost pre = v@;
        let ghost preout = out@;
        let x = v.remove(mi);
        let ghost xa = x@;
        out.push(x);
        proof {
            assert(string_views(v@) =~= string_views(pre).remove(mi as int));
            vstd::seq_lib::to_multiset_remove(string_views(pre), mi as int);
            assert(string_views(pre)[mi as int] == xa);
            assert(string_views(v@).to_multiset() == string_views(pre).to_multiset().remove(xa));
            assert(string_views(out@) =~= string_views(preout).push(xa));
            vstd::seq_lib::to_multiset_build(string_views(preout), xa);
            assert(string_views(out@).to_multiset() == string_views(
                preout,
            ).to_multiset().insert(xa));
            assert(string_views(pre).to_multiset().count(xa) >= 1) by {
                string_views(pre).to_multiset_ensures();
                assert(string_views(pre).contains(xa));
            }
            assert(string_views(out@).to_multiset().add(string_views(v@).to_multiset())
                =~= string_views(preout).to_multiset().add(string_views(pre).to_multiset()));
            assert forall|p: int, q: int|
                0 <= p < out@.len() && 0 <= q < v@.len() implies lex_leq(
                (#[trigger] out@[p])@,
                (#[trigger] v@[q])@,
            ) by {
                let qp: int = if q < mi as int {
                    q
                } else {
                    q + 1
                };
                assert(v@[q] == pre[qp]);
                if p < out@.len() - 1 {
                    assert(lex_leq((preout[p])@, (pre[qp])@));
                } else {
                    assert(out@[p]@ == xa);
                    assert(lex_leq(xa, (pre[qp])@));
                }
            }
            assert forall|i: int, j: int|
                0 <= i < j < string_views(out@).len() implies lex_leq(
                #[trigger] string_views(out@)[i],
                #[trigger] string_views(out@)[j],
            ) by {
                if j < out@.len() - 1 {
                    assert(string_views(preout)[i] == preout[i]@);
                    assert(lex_leq(string_views(preout)[i], string_views(preout)[j]));
                } else {
                    assert(string_views(out@)[j] == xa);
                    assert(lex_leq((preout[i])@, (pre[mi as int])@));
                }
            }
            assert(lex_sorted(string_views(out@)));
        }
    }
    proof {
        vstd::seq_lib::to_multiset_len(string_views(v@));
        vstd::multiset::lemma_multiset_empty_len(string_views(v@).to_multiset());
        assert(string_views(v@).to_multiset() =~= Multiset::<Seq<char>>::empty());
        assert(string_views(out@).to_multiset() =~= string_views(orig).to_multiset());
    }
    *v = out;
}

/// The lexicographically sorted list of currency codes a table offers.
pub fn get_currencies(t: &ExchangeRates) -> (r: Vec<String>)
    requires
        t.wf(),
    ensures
        lex_sorted(string_views(r@)),
        string_views(r@).no_duplicates(),
        string_views(r@).to_set() == t.rates@.dom(),
        string_views(r@).to_multiset() == t.rates.codes().to_multiset(),
{
    let mut keys = t.rates.key_list();
    proof {
        assert(string_views(keys@) == t.rates.codes());
    }
    sort_strings(&mut keys);
    proof {
        broadcast use vstd::seq_lib::group_to_multiset_ensures;
        broadcast use vstd::multiset::group_multiset_axioms;

        let out = string_views(keys@);
        let codes = t.rates.codes();
        t.rates.lemma_codes_are_dom();
        codes.lemma_multiset_has_no_duplicates();
        assert forall|x: Seq<char>|
            out.to_multiset().contains(x) implies out.to_multiset().count(x) == 1 by {
            assert(codes.to_multiset().count(x) == out.to_multiset().count(x));
        }
        out.lemma_multiset_has_no_duplicates_conv();
        assert forall|x: Seq<char>| out.contains(x) <==> #[trigger] codes.contains(x) by {
            vstd::seq_lib::to_multiset_contains(out, x);
            vstd::seq_lib::to_multiset_contains(codes, x);
        }
        assert(out.to_set() =~= codes.to_set());
    }
    keys
}

/// Listing is deterministic: any two sorted listings of the same codes are
/// the same sequence, so two calls over one table agree.
pub proof fn lemma_listing_deterministic(s1: Seq<Seq<char>>, s2: Seq<Seq<char>>)
    requires
        lex_sorted(s1),
        lex_sorted(s2),
        s1.to_multiset() == s2.to_multiset(),
    ensures
        s1 == s2,
{
    let leq = |a: Seq<char>, b: Seq<char>| lex_leq(a, b);
    lemma_lex_total_ordering();
    assert forall|i: int, j: int| 0 <= i < j < s1.len() implies #[trigger] leq(s1[i], s1[j]) by {
        assert(lex_leq(s1[i], s1[j]));
    }
    assert forall|i: int, j: int| 0 <= i < j < s2.len() implies #[trigger] leq(s2[i], s2[j]) by {
        assert(lex_leq(s2[i], s2[j]));
    }
    assert(sorted_by(s1, leq));
    assert(sorted_by(s2, leq));
    lemma_sorted_unique(s1, s2, leq);
    assert(s1 =~= s2);
}

/// Two sorted, duplicate-free listings of the same set of codes are the
/// same sequence.
pub proof fn lemma_sorted_set_listing_unique(l1: Seq<Seq<char>>, l2: Seq<Seq<char>>)
    requires
        lex_sorted(l1),
        lex_sorted(l2),
        l1.no_duplicates(),
        l2.no_duplicates(),
        l1.to_set() == l2.to_set(),
    ensures
        l1 == l2,
{
    broadcast use vstd::multiset::group_multiset_axioms;

    l1.lemma_multiset_has_no_duplicates();
    l2.lemma_multiset_has_no_duplicates();
    assert forall|x: Seq<char>|
        #[trigger] l1.to_multiset().count(x) == l2.to_multiset().count(x) by {
        vstd::seq_lib::to_multiset_contains(l1, x);
        vstd::seq_lib::to_multiset_contains(l2, x);
        assert(l1.contains(x) <==> l1.to_set().contains(x));
        assert(l2.contains(x) <==> l2.to_set().contains(x));
    }
    assert(l1.to_multiset() =~= l2.to_multiset());
    lemma_listing_deterministic(l1, l2);
}

/// Listing the currencies is idempotent across resolutions: two resolutions
/// over identical responses yield tables whose sorted code listings are the
/// same sequence.
pub proof fn lemma_listing_idempotent(
    t1: ExchangeRates,
    t2: ExchangeRates,
    l1: Seq<Seq<char>>,
    l2: Seq<Seq<char>>,
    base: Seq<char>,
    key: Seq<char>,
    responses: Seq<Option<String>>,
    now: u64,
)
    requires
        resolves_to(t1, base, key, responses, now),
        resolves_to(t2, base, key, responses, now),
        lex_sorted(l1),
        l1.no_duplicates(),
        l1.to_set() == t1.rates@.dom(),
        lex_sorted(l2),
        l2.no_duplicates(),
        l2.to_set() == t2.rates@.dom(),
    ensures
        l1 == l2,
{
    lemma_resolution_deterministic(t1, t2, base, key, responses, now);
    lemma_sorted_set_listing_unique(l1, l2);
}

/// An amount multiplied by a rate, in micro units, saturating.
pub open spec fn mul_micro(a: int, r: int) -> int {
    clamp_i64(div_toward_zero(a * r, 1000000))
}

/// Computes `mul_micro` on machine words.
pub fn mul_micro_exec(a: i64, r: i64) -> (res: i64)
    ensures
        res as int == mul_micro(a as int, r as int),
{
    let neg = (a < 0) != (r < 0);
    let au: u128 = if a < 0 {
        (-(a as i128)) as u128
    } else {
        a as u128
    };
    let ru: u128 = if r < 0 {
        (-(r as i128)) as u128
    } else {
        r as u128
    };
    proof {
        lemma_mul_upper_bound(au as int, 9223372036854775808, ru as int, 9223372036854775808);
        let ai = a as int;
        let ri = r as int;
        if a >= 0 && r >= 0 {
            assert((au as int) * (ru as int) == ai * ri);
        } else if a < 0 && r >= 0 {
            lemma_mul_unary_negation(ai, ri);
            assert((au as int) * (ru as int) == -(ai * ri));
            lemma_mul_inequality(ai, 0, ri);
            assert(ai * ri <= 0 * ri);
            assert(0 * ri == 0) by (nonlinear_arith);
        } else if a >= 0 && r < 0 {
            lemma_mul_unary_negation(ri, ai);
            assert((ru as int) * (au as int) == -(ri * ai));
            assert((au as int) * (ru as int) == (ru as int) * (au as int))
                by (nonlinear_arith);
            assert(ri * ai == ai * ri) by (nonlinear_arith);
            lemma_mul_inequality(ri, 0, ai);
            assert(ri * ai <= 0 * ai);
            assert(0 * ai == 0) by (nonlinear_arith);
        } else {
            lemma_mul_cancels_negatives(ai, ri);
            assert((au as int) * (ru as int) == ai * ri);
            lemma_mul_inequality(0, -ai, -ri);
            assert(0 * (-ri) == 0) by (nonlinear_arith);
            assert(ai * ri >= 0);
        }
        assert((au as int) * (ru as int) == if ai * ri >= 0 {
            ai * ri
        } else {
            -(ai * ri)
        });
    }
    let p: u128 = au * ru;
    let q: u128 = p / 1000000;
    if p == 0 {
        return 0;
    }
    if neg {
        proof {
            if (a as int) * (r as int) >= 0 {
                assert((a as int) * (r as int) == 0);
            }
        }
        if q > 9223372036854775808u128 {
            i64::MIN
        } else {
            (-(q as i128)) as i64
        }
    } else {
        proof {
            if (a as int) * (r as int) < 0 {
                assert(false);
            }
        }
        if q > 9223372036854775807u128 {
            i64::MAX
        } else {
            q as i64
        }
    }
}

/// The one failure the conversion operation can raise: the target code is
/// absent from the resolved table.
#[derive(Debug)]
pub enum ConvertError {
    CurrencyNotFound(String),
}

impl ConvertError {
    /// The user-facing description of the failure.
    pub fn message(&self) -> (m: String)
        ensures
            self matches ConvertError::CurrencyNotFound(code) ==> m@ == "Currency "@ + code@
                + " not found"@,
    {
        match self {
            ConvertError::CurrencyNotFound(code) => {
                let mut m = String::from_str("Currency ");
                m.append(code.as_str());
                m.append(" not found");
                m
            },
        }
    }
}

/// The outcome of a conversion, all fields rendered for display.
#[derive(Debug)]
pub struct ConversionResult {
    pub amount: String,
    pub from: String,
    pub to: String,
    pub result: String,
    pub rate: String,
    pub timestamp: String,
}

/// Converts an amount between currencies against a resolved table: the
/// amount times the target's rate, every number rendered to two places
/// (half away from zero), the instant rendered as a UTC timestamp.  Fails
/// exactly when the target code is absent from the table.
pub fn convert_currency(
    t: &ExchangeRates,
    amount_micro: i64,
    from: &str,
    to: &str,
    now: u64,
) -> (r: Result<ConversionResult, ConvertError>)
    requires
        t.wf(),
    ensures
        r is Ok <==> t.rates@.contains_key(to@),
        r matches Ok(c) ==> {
            &&& c.amount@ == format_micro(amount_micro as int)
            &&& c.from@ == from@
            &&& c.to@ == to@
            &&& c.result@ == format_micro(mul_micro(amount_micro as int, t.rates@[to@]))
            &&& c.rate@ == format_micro(t.rates@[to@])
            &&& renders_instant(c.timestamp@, now as int)
        },
        r matches Err(e) ==> e matches ConvertError::CurrencyNotFound(code) && code@ == to@,
{
    match t.rates.get(to) {
        Some(rate) => {
            let converted = mul_micro_exec(amount_micro, rate);
            Ok(ConversionResult {
                amount: format_micro_2dp(amount_micro),
                from: from.to_owned(),
                to: to.to_owned(),
                result: format_micro_2dp(converted),
                rate: format_micro_2dp(rate),
                timestamp: format_datetime(now),
            })
        },
        None => Err(ConvertError::CurrencyNotFound(to.to_owned())),
    }
}

} // verus!
