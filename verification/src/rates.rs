//! The canonical rate table: a map from currency codes to fixed-point rates.
//!
//! Rates are micro units (millionths) of the quote currency per one unit of
//! the base currency.  The map is an association list with unique keys; its
//! mathematical view is a `Map<Seq<char>, int>`.

use vstd::prelude::*;
use vstd::string::*;
use crate::strutil::{str_eq};

verus! {

/// No two entries share a code.
pub open spec fn keys_unique(s: Seq<(String, i64)>) -> bool {
    forall|i: int, j: int| 0 <= i < j < s.len() ==> (#[trigger] s[i]).0@ != (#[trigger] s[j]).0@
}

/// The map described by an entry list, later entries overriding earlier
/// ones.
pub open spec fn entries_map(s: Seq<(String, i64)>) -> Map<Seq<char>, int>
    decreases s.len(),
{
    if s.len() == 0 {
        Map::empty()
    } else {
        entries_map(s.drop_last()).insert(s.last().0@, s.last().1 as int)
    }
}

/// With unique keys, the map agrees with every entry, and its domain is
/// exactly the set of codes in the list.
pub proof fn lemma_entries_map_index(s: Seq<(String, i64)>, k: Seq<char>)
    requires
        keys_unique(s),
    ensures
        entries_map(s).contains_key(k) <==> exists|i: int|
            0 <= i < s.len() && (#[trigger] s[i]).0@ == k,
        forall|i: int|
            0 <= i < s.len() && (#[trigger] s[i]).0@ == k ==> entries_map(s)[k] == s[i].1 as int,
    decreases s.len(),
{
    if s.len() > 0 {
        assert(keys_unique(s.drop_last()));
        lemma_entries_map_index(s.drop_last(), k);
        if s.last().0@ == k {
            assert(s[s.len() - 1].0@ == k);
        } else {
            if entries_map(s).contains_key(k) {
                let i = choose|i: int|
                    0 <= i < s.drop_last().len() && (#[trigger] s.drop_last()[i]).0@ == k;
                assert(s[i].0@ == k);
            }
            if exists|i: int| 0 <= i < s.len() && (#[trigger] s[i]).0@ == k {
                let i = choose|i: int| 0 <= i < s.len() && (#[trigger] s[i]).0@ == k;
                assert(i < s.len() - 1);
                assert(s.drop_last()[i].0@ == k);
            }
        }
    }
}

/// Signed division rounding toward zero.
pub open spec fn div_toward_zero(p: int, q: int) -> int {
    if p >= 0 {
        p / q
    } else {
        -((-p) / q)
    }
}

/// Saturation into the `i64` range.
pub open spec fn clamp_i64(x: int) -> int {
    if x > i64::MAX {
        i64::MAX as int
    } else if x < i64::MIN {
        i64::MIN as int
    } else {
        x
    }
}

/// One rate divided by another, in micro units, saturating.
pub open spec fn rescale(r: int, b: int) -> int {
    clamp_i64(div_toward_zero(r * 1000000, b))
}

/// Computes `rescale` on machine words.
pub fn rescale_exec(r: i64, b: i64) -> (res: i64)
    requires
        b > 0,
    ensures
        res as int == rescale(r as int, b as int),
{
    let neg = r < 0;
    let ra: u128 = if r < 0 {
        (-(r as i128)) as u128
    } else {
        r as u128
    };
    let p: u128 = ra * 1000000;
    let q: u128 = p / (b as u128);
    if neg {
        proof {
            assert((-(r as int)) * 1000000 == -(r as int * 1000000));
        }
        if q > 9223372036854775808u128 {
            i64::MIN
        } else {
            (-(q as i128)) as i64
        }
    } else {
        if q > 9223372036854775807u128 {
            i64::MAX
        } else {
            q as i64
        }
    }
}

/// Replacing the value at the (unique) index of a key acts on the map as an
/// insert of that key.
proof fn lemma_entries_map_update(s: Seq<(String, i64)>, i: int, code: String, rate: i64)
    requires
        keys_unique(s),
        0 <= i < s.len(),
        s[i].0@ == code@,
    ensures
        entries_map(s.update(i, (code, rate))) == entries_map(s).insert(code@, rate as int),
        keys_unique(s.update(i, (code, rate))),
    decreases s.len(),
{
    let s2 = s.update(i, (code, rate));
    assert(forall|t: int| 0 <= t < s.len() && t != i ==> s2[t] == s[t]);
    if i == s.len() - 1 {
        assert(s2.drop_last() =~= s.drop_last());
        assert(s2.last() == (code, rate));
        assert(entries_map(s2) =~= entries_map(s).insert(code@, rate as int));
    } else {
        assert(s2.drop_last() =~= s.drop_last().update(i, (code, rate)));
        assert(keys_unique(s.drop_last()));
        assert(s.drop_last()[i] == s[i]);
        lemma_entries_map_update(s.drop_last(), i, code, rate);
        assert(s2.last() == s.last());
        assert(s[i].0@ != s.last().0@);
        assert(entries_map(s2) =~= entries_map(s).insert(code@, rate as int));
    }
}

/// A table of exchange rates, keyed by currency code.
#[derive(Debug)]
pub struct RateMap {
    entries: Vec<(String, i64)>,
}

impl View for RateMap {
    type V = Map<Seq<char>, int>;

    closed spec fn view(&self) -> Map<Seq<char>, int> {
        entries_map(self.entries@)
    }
}

impl RateMap {
    /// The entry list keeps one entry per code.
    pub closed spec fn wf(&self) -> bool {
        keys_unique(self.entries@)
    }

    /// The codes, in insertion order.
    pub closed spec fn codes(&self) -> Seq<Seq<char>> {
        self.entries@.map_values(|e: (String, i64)| e.0@)
    }

    /// The public bridge from the code list to the map: with a well-formed
    /// table the codes are duplicate-free and name exactly the map's domain.
    pub proof fn lemma_codes_are_dom(&self)
        requires
            self.wf(),
        ensures
            self.codes().no_duplicates(),
            self.codes().to_set() == self@.dom(),
            forall|k: Seq<char>| self@.dom().contains(k) <==> self.codes().contains(k),
    {
        assert forall|k: Seq<char>| self@.dom().contains(k) <==> #[trigger] self.codes().contains(
            k,
        ) by {
            lemma_entries_map_index(self.entries@, k);
            if self@.dom().contains(k) {
                let i = choose|i: int|
                    0 <= i < self.entries@.len() && (#[trigger] self.entries@[i]).0@ == k;
                assert(self.codes()[i] == k);
            }
            if self.codes().contains(k) {
                let i = choose|i: int|
                    0 <= i < self.codes().len() && (#[trigger] self.codes()[i]) == k;
                assert(self.entries@[i].0@ == k);
            }
        }
        assert(self.codes().to_set() =~= self@.dom());
        assert forall|i: int, j: int|
            0 <= i < self.codes().len() && 0 <= j < self.codes().len() && i
                != j implies self.codes()[i] != self.codes()[j] by {
            if i < j {
                assert(self.entries@[i].0@ != self.entries@[j].0@);
            } else {
                assert(self.entries@[j].0@ != self.entries@[i].0@);
            }
        }
    }

    pub fn new() -> (r: RateMap)
        ensures
            r.wf(),
            r@ == Map::<Seq<char>, int>::empty(),
            r.codes() == Seq::<Seq<char>>::empty(),
    {
        let r = RateMap { entries: Vec::new() };
        proof {
            assert(r.codes() =~= Seq::<Seq<char>>::empty());
        }
        r
    }

    pub fn len(&self) -> (n: usize)
        requires
            self.wf(),
        ensures
            n == self.codes().len(),
    {
        self.entries.len()
    }

    /// Inserts a rate, replacing any entry with the same code.
    pub fn insert(&mut self, code: String, rate: i64)
        requires
            old(self).wf(),
        ensures
            final(self).wf(),
            final(self)@ == old(self)@.insert(code@, rate as int),
    {
        let n = self.entries.len();
        let mut i: usize = 0;
        while i < n
            invariant
                n == self.entries@.len(),
                i <= n,
                self.entries@ == old(self).entries@,
                forall|t: int| 0 <= t < i ==> (#[trigger] self.entries@[t]).0@ != code@,
                keys_unique(self.entries@),
            decreases n - i,
        {
            if str_eq(self.entries[i].0.as_str(), code.as_str()) {
                proof {
                    lemma_entries_map_update(self.entries@, i as int, code, rate);
                }
                self.entries[i] = (code, rate);
                return;
            }
            i = i + 1;
        }
        self.entries.push((code, rate));
        proof {
            assert(self.entries@.drop_last() =~= old(self).entries@);
        }
    }

    /// Looks a code up.
    pub fn get(&self, code: &str) -> (r: Option<i64>)
        requires
            self.wf(),
        ensures
            r is Some <==> self@.contains_key(code@),
            r matches Some(v) ==> self@[code@] == v as int,
    {
        let n = self.entries.len();
        let mut i: usize = 0;
        proof {
            lemma_entries_map_index(self.entries@, code@);
        }
        while i < n
            invariant
                n == self.entries@.len(),
                i <= n,
                self.wf(),
                forall|t: int| 0 <= t < i ==> (#[trigger] self.entries@[t]).0@ != code@,
                entries_map(self.entries@).contains_key(code@) <==> exists|t: int|
                    0 <= t < n && (#[trigger] self.entries@[t]).0@ == code@,
                forall|t: int|
                    0 <= t < n && (#[trigger] self.entries@[t]).0@ == code@ ==> entries_map(
                        self.entries@,
                    )[code@] == self.entries@[t].1 as int,
            decreases n - i,
        {
            if str_eq(self.entries[i].0.as_str(), code) {
                return Some(self.entries[i].1);
            }
            i = i + 1;
        }
        None
    }

    /// Divides every rate by `base_rate`, re-basing the whole table.
    pub fn rebase(&self, base_rate: i64) -> (r: RateMap)
        requires
            self.wf(),
            base_rate > 0,
        ensures
            r.wf(),
            r@.dom() == self@.dom(),
            forall|k: Seq<char>|
                self@.contains_key(k) ==> r@[k] == rescale(self@[k], base_rate as int),
    {
        let n = self.entries.len();
        let mut out: Vec<(String, i64)> = Vec::new();
        let mut i: usize = 0;
        while i < n
            invariant
                n == self.entries@.len(),
                i <= n,
                self.wf(),
                base_rate > 0,
                out@.len() == i,
                forall|t: int|
                    0 <= t < i ==> (#[trigger] out@[t]).0@ == self.entries@[t].0@ && out@[t].1
                        as int == rescale(self.entries@[t].1 as int, base_rate as int),
            decreases n - i,
        {
            let code = self.entries[i].0.clone();
            let v = rescale_exec(self.entries[i].1, base_rate);
            out.push((code, v));
            i = i + 1;
        }
        let r = RateMap { entries: out };
        proof {
            assert(keys_unique(r.entries@));
            assert forall|k: Seq<char>| #[trigger]
                r@.contains_key(k) == self@.contains_key(k) && (self@.contains_key(k)
                ==> r@[k] == rescale(self@[k], base_rate as int)) by {
                lemma_entries_map_index(self.entries@, k);
                lemma_entries_map_index(r.entries@, k);
                if self@.contains_key(k) {
                    let t = choose|t: int|
                        0 <= t < self.entries@.len() && (#[trigger] self.entries@[t]).0@ == k;
                    assert(r.entries@[t].0@ == k);
                }
                if r@.contains_key(k) {
                    let t = choose|t: int|
                        0 <= t < r.entries@.len() && (#[trigger] r.entries@[t]).0@ == k;
                    assert(self.entries@[t].0@ == k);
                }
            }
            assert(r@.dom() =~= self@.dom());
        }
        r
    }

    /// The codes present, in insertion order.
    pub fn key_list(&self) -> (r: Vec<String>)
        requires
            self.wf(),
        ensures
            r@.map_values(|k: String| k@) == self.codes(),
    {
        let n = self.entries.len();
        let mut out: Vec<String> = Vec::new();
        let mut i: usize = 0;
        while i < n
            invariant
                n == self.entries@.len(),
                i <= n,
                out@.len() == i,
                forall|t: int| 0 <= t < i ==> (#[trigger] out@[t])@ == self.entries@[t].0@,
            decreases n - i,
        {
            out.push(self.entries[i].0.clone());
            i = i + 1;
        }
        proof {
            assert(out@.map_values(|k: String| k@) =~= self.codes());
        }
        out
    }
}

/// A normalized rate response: whichever source answered, it is carried in
/// this one shape.
#[derive(Debug)]
pub struct ExchangeRates {
    pub success: bool,
    pub timestamp: Option<u64>,
    pub base: Option<String>,
    pub date: Option<String>,
    pub rates: RateMap,
}

impl ExchangeRates {
    pub open spec fn wf(&self) -> bool {
        self.rates.wf()
    }
}

} // verus!
