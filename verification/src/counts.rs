//! Word-frequency maps.
//!
//! A `FrequencyMap` holds one count per distinct counted key.  A local map
//! is built per chunk; local maps are then merged, key by key, into one
//! global map.  The entries stay in insertion order; sorting happens only
//! when the result is rendered.

use vstd::prelude::*;
use vstd::string::*;
use vstd::utf8::encode_utf8_decode_utf8;

use crate::words::{
    count_occ, keys_of_line, keys_of_lines, keys_of_tokens, lemma_count_occ_le, norm_of,
    process_word, split_tokens, tokens_of,
};

verus! {

/// Whether two strings hold the same characters.
pub fn str_eq(a: &str, b: &str) -> (r: bool)
    ensures
        r == (a@ == b@),
{
    let ab = a.as_bytes();
    let bb = b.as_bytes();
    let n = ab.len();
    if n != bb.len() {
        proof {
            assert(a@ != b@);
        }
        return false;
    }
    let mut i: usize = 0;
    while i < n
        invariant
            i <= n,
            n == ab@.len() == bb@.len(),
            ab@ == a.spec_bytes(),
            bb@ == b.spec_bytes(),
            forall|j: int| 0 <= j < i ==> ab@[j] == bb@[j],
        decreases n - i,
    {
        if ab[i] != bb[i] {
            proof {
                assert(a.spec_bytes() != b.spec_bytes());
            }
            return false;
        }
        i = i + 1;
    }
    proof {
        assert(a.spec_bytes() =~= b.spec_bytes());
        encode_utf8_decode_utf8(a@);
        encode_utf8_decode_utf8(b@);
    }
    true
}

/// Sum of the counts that a key collects over an entry sequence.
pub open spec fn ccount(s: Seq<(String, u64)>, key: Seq<char>) -> nat
    decreases s.len(),
{
    if s.len() == 0 {
        0
    } else {
        ccount(s.drop_last(), key) + (if s.last().0@ == key {
            s.last().1 as nat
        } else {
            0nat
        })
    }
}

/// Sum of all counts in an entry sequence.
pub open spec fn csum(s: Seq<(String, u64)>) -> nat
    decreases s.len(),
{
    if s.len() == 0 {
        0
    } else {
        csum(s.drop_last()) + s.last().1 as nat
    }
}

pub proof fn lemma_ccount_le_csum(s: Seq<(String, u64)>, key: Seq<char>)
    ensures
        ccount(s, key) <= csum(s),
    decreases s.len(),
{
    if s.len() > 0 {
        lemma_ccount_le_csum(s.drop_last(), key);
    }
}

pub proof fn lemma_ccount_zero(s: Seq<(String, u64)>, key: Seq<char>)
    requires
        forall|j: int| 0 <= j < s.len() ==> (#[trigger] s[j].0)@ != key,
    ensures
        ccount(s, key) == 0,
    decreases s.len(),
{
    if s.len() > 0 {
        assert(s.last() == s[s.len() - 1]);
        lemma_ccount_zero(s.drop_last(), key);
    }
}

/// With distinct keys, the sum a key collects is just its own entry's count.
pub proof fn lemma_ccount_found(s: Seq<(String, u64)>, i: int, key: Seq<char>)
    requires
        0 <= i < s.len(),
        s[i].0@ == key,
        forall|j: int| 0 <= j < s.len() && j != i ==> (#[trigger] s[j].0)@ != key,
    ensures
        ccount(s, key) == s[i].1 as nat,
    decreases s.len(),
{
    if i == s.len() - 1 {
        assert forall|j: int| 0 <= j < s.drop_last().len() implies (#[trigger] s.drop_last()[j].0)@
            != key by {
            assert(s.drop_last()[j] == s[j]);
        }
        lemma_ccount_zero(s.drop_last(), key);
    } else {
        assert(s.last() == s[s.len() - 1]);
        lemma_ccount_found(s.drop_last(), i, key);
    }
}

pub proof fn lemma_ccount_update(s: Seq<(String, u64)>, i: int, e: (String, u64), key: Seq<char>)
    requires
        0 <= i < s.len(),
    ensures
        ccount(s.update(i, e), key) == ccount(s, key) - (if s[i].0@ == key {
            s[i].1 as nat
        } else {
            0nat
        }) + (if e.0@ == key {
            e.1 as nat
        } else {
            0nat
        }),
    decreases s.len(),
{
    let s2 = s.update(i, e);
    if i == s.len() - 1 {
        assert(s2.drop_last() =~= s.drop_last());
        assert(s2.last() == e);
    } else {
        assert(s2.drop_last() =~= s.drop_last().update(i, e));
        assert(s2.last() == s.last());
        lemma_ccount_update(s.drop_last(), i, e, key);
    }
}

pub proof fn lemma_csum_update(s: Seq<(String, u64)>, i: int, e: (String, u64))
    requires
        0 <= i < s.len(),
    ensures
        csum(s.update(i, e)) == csum(s) - s[i].1 as nat + e.1 as nat,
    decreases s.len(),
{
    let s2 = s.update(i, e);
    if i == s.len() - 1 {
        assert(s2.drop_last() =~= s.drop_last());
        assert(s2.last() == e);
    } else {
        assert(s2.drop_last() =~= s.drop_last().update(i, e));
        assert(s2.last() == s.last());
        lemma_csum_update(s.drop_last(), i, e);
    }
}

pub proof fn lemma_ccount_concat(a: Seq<(String, u64)>, b: Seq<(String, u64)>, key: Seq<char>)
    ensures
        ccount(a + b, key) == ccount(a, key) + ccount(b, key),
    decreases b.len(),
{
    if b.len() == 0 {
        assert(a + b =~= a);
    } else {
        assert((a + b).drop_last() =~= a + b.drop_last());
        lemma_ccount_concat(a, b.drop_last(), key);
    }
}

pub proof fn lemma_csum_concat(a: Seq<(String, u64)>, b: Seq<(String, u64)>)
    ensures
        csum(a + b) == csum(a) + csum(b),
    decreases b.len(),
{
    if b.len() == 0 {
        assert(a + b =~= a);
    } else {
        assert((a + b).drop_last() =~= a + b.drop_last());
        lemma_csum_concat(a, b.drop_last());
    }
}

/// How many entries of a sequence carry `key`.
pub open spec fn kcount(s: Seq<(String, u64)>, key: Seq<char>) -> nat
    decreases s.len(),
{
    if s.len() == 0 {
        0
    } else {
        kcount(s.drop_last(), key) + (if s.last().0@ == key {
            1nat
        } else {
            0nat
        })
    }
}

pub proof fn lemma_kcount_concat(a: Seq<(String, u64)>, b: Seq<(String, u64)>, key: Seq<char>)
    ensures
        kcount(a + b, key) == kcount(a, key) + kcount(b, key),
    decreases b.len(),
{
    if b.len() == 0 {
        assert(a + b =~= a);
    } else {
        assert((a + b).drop_last() =~= a + b.drop_last());
        lemma_kcount_concat(a, b.drop_last(), key);
    }
}

/// Every entry counts at least one occurrence of a non-empty key.
pub open spec fn entries_wf(s: Seq<(String, u64)>) -> bool {
    forall|i: int|
        0 <= i < s.len() ==> (#[trigger] s[i].1) >= 1 && s[i].0@.len() >= 1
}

/// Pairwise-distinct keys mean no key owns two entries.
pub proof fn lemma_distinct_kcount(s: Seq<(String, u64)>, key: Seq<char>)
    requires
        forall|i: int, j: int|
            0 <= i < j < s.len() ==> (#[trigger] s[i].0)@ != (#[trigger] s[j].0)@,
    ensures
        kcount(s, key) <= 1,
    decreases s.len(),
{
    if s.len() > 0 {
        assert forall|i: int, j: int|
            0 <= i < j < s.drop_last().len() implies (#[trigger] s.drop_last()[i].0)@ != (
        #[trigger] s.drop_last()[j].0)@ by {
            assert(s.drop_last()[i] == s[i] && s.drop_last()[j] == s[j]);
        }
        lemma_distinct_kcount(s.drop_last(), key);
        if s.last().0@ == key {
            assert forall|j: int| 0 <= j < s.len() - 1 implies (#[trigger] s[j].0)@ != key by {
                assert(s[j].0@ != s[s.len() - 1].0@);
            }
            lemma_no_key_kcount(s.drop_last(), key);
        }
    }
}

proof fn lemma_no_key_kcount(s: Seq<(String, u64)>, key: Seq<char>)
    requires
        forall|j: int| 0 <= j < s.len() ==> (#[trigger] s[j].0)@ != key,
    ensures
        kcount(s, key) == 0,
    decreases s.len(),
{
    if s.len() > 0 {
        assert(s.last() == s[s.len() - 1]);
        lemma_no_key_kcount(s.drop_last(), key);
    }
}

/// A mapping from counted keys to how often they occurred.
///
/// Well-formed maps hold distinct, non-empty keys, each with a count of at
/// least one; every function that builds or grows a map keeps it so.
pub struct FrequencyMap {
    pub entries: Vec<(String, u64)>,
}

impl FrequencyMap {
    /// How often `key` was counted; zero when it is absent.
    pub open spec fn count_of(self, key: Seq<char>) -> nat {
        ccount(self.entries@, key)
    }

    /// Sum of all counts: the number of accepted tokens this map has seen.
    pub open spec fn total(self) -> nat {
        csum(self.entries@)
    }

    /// Distinct non-empty keys, each counted at least once.
    pub open spec fn wf(self) -> bool {
        &&& forall|i: int, j: int|
            0 <= i < j < self.entries@.len() ==> (#[trigger] self.entries@[i].0)@ != (
            #[trigger] self.entries@[j].0)@
        &&& forall|i: int| 0 <= i < self.entries@.len() ==> (#[trigger] self.entries@[i].1) >= 1
        &&& forall|i: int|
            0 <= i < self.entries@.len() ==> (#[trigger] self.entries@[i].0)@.len() >= 1
    }

    /// An empty map: no keys, no counts.
    pub fn new() -> (m: FrequencyMap)
        ensures
            m.wf(),
            m.total() == 0,
            forall|k: Seq<char>| #[trigger] m.count_of(k) == 0,
            m.entries@.len() == 0,
    {
        FrequencyMap { entries: Vec::new() }
    }

    /// Number of distinct keys.
    pub fn len(&self) -> (n: usize)
        ensures
            n == self.entries@.len(),
    {
        self.entries.len()
    }

    /// Adds `c` occurrences of `key`: increments the existing entry, or
    /// appends a new one.
    pub fn add_count(&mut self, key: &String, c: u64)
        requires
            old(self).wf(),
            c >= 1,
            key@.len() >= 1,
            old(self).count_of(key@) + c <= u64::MAX,
        ensures
            final(self).wf(),
            final(self).count_of(key@) == old(self).count_of(key@) + c,
            forall|k: Seq<char>|
                k != key@ ==> #[trigger] final(self).count_of(k) == old(self).count_of(k),
            final(self).total() == old(self).total() + c,
    {
        let ghost s0 = self.entries@;
        let n = self.entries.len();
        let mut i: usize = 0;
        while i < n
            invariant
                i <= n,
                n == self.entries@.len(),
                self.entries@ == s0,
                *self == *old(self),
                self.wf(),
                c >= 1,
                key@.len() >= 1,
                old(self).count_of(key@) + c <= u64::MAX,
                forall|j: int| 0 <= j < i ==> (#[trigger] self.entries@[j].0)@ != key@,
            decreases n - i,
        {
            if str_eq(self.entries[i].0.as_str(), key.as_str()) {
                proof {
                    assert forall|j: int|
                        0 <= j < s0.len() && j != i as int implies (#[trigger] s0[j].0)@
                        != key@ by {
                        if (i as int) < j {
                            assert(s0[i as int].0@ != s0[j].0@);
                        }
                    }
                    lemma_ccount_found(s0, i as int, key@);
                }
                let c0 = self.entries[i].1;
                let e = (key.clone(), c0 + c);
                let ghost ge = e;
                self.entries[i] = e;
                proof {
                    let s1 = self.entries@;
                    assert(s1 == s0.update(i as int, ge));
                    assert forall|k: Seq<char>| true implies #[trigger] ccount(s1, k) == ccount(
                        s0,
                        k,
                    ) - (if s0[i as int].0@ == k {
                        s0[i as int].1 as nat
                    } else {
                        0nat
                    }) + (if key@ == k {
                        (c0 + c) as nat
                    } else {
                        0nat
                    }) by {
                        lemma_ccount_update(s0, i as int, s1[i as int], k);
                    }
                    lemma_csum_update(s0, i as int, s1[i as int]);
                }
                return ;
            }
            i = i + 1;
        }
        proof {
            lemma_ccount_zero(s0, key@);
        }
        let e = (key.clone(), c);
        let ghost ge = e;
        self.entries.push(e);
        proof {
            let s1 = self.entries@;
            assert(s1.drop_last() =~= s0);
            assert(s1.last() == ge);
            assert forall|k: Seq<char>| k != key@ implies #[trigger] ccount(s1, k) == ccount(
                s0,
                k,
            ) by {}
        }
    }

    /// Looks a key up; `None` exactly when it was never counted.
    pub fn get(&self, key: &str) -> (r: Option<u64>)
        requires
            self.wf(),
        ensures
            match r {
                Some(c) => c as nat == self.count_of(key@) && c >= 1,
                None => self.count_of(key@) == 0,
            },
    {
        let n = self.entries.len();
        let mut i: usize = 0;
        while i < n
            invariant
                i <= n,
                n == self.entries@.len(),
                self.wf(),
                forall|j: int| 0 <= j < i ==> (#[trigger] self.entries@[j].0)@ != key@,
            decreases n - i,
        {
            if str_eq(self.entries[i].0.as_str(), key) {
                proof {
                    lemma_ccount_found(self.entries@, i as int, key@);
                }
                return Some(self.entries[i].1);
            }
            i = i + 1;
        }
        proof {
            lemma_ccount_zero(self.entries@, key@);
        }
        None
    }

    /// A copy of the entries, in insertion order.
    pub fn to_entries(&self) -> (v: Vec<(String, u64)>)
        ensures
            v@ == self.entries@,
    {
        let n = self.entries.len();
        let mut v: Vec<(String, u64)> = Vec::new();
        let mut i: usize = 0;
        while i < n
            invariant
                i <= n,
                n == self.entries@.len(),
                v@.len() == i,
                forall|j: int| 0 <= j < i ==> v@[j] == self.entries@[j],
            decreases n - i,
        {
            let e = (self.entries[i].0.clone(), self.entries[i].1);
            v.push(e);
            i = i + 1;
        }
        proof {
            assert(v@ =~= self.entries@);
        }
        v
    }

    /// Adds every count of `other` into this map.  Existing keys are
    /// incremented, never overwritten; the totals add up.
    pub fn merge(&mut self, other: &FrequencyMap)
        requires
            old(self).wf(),
            other.wf(),
            old(self).total() + other.total() <= u64::MAX,
        ensures
            final(self).wf(),
            forall|k: Seq<char>|
                #[trigger] final(self).count_of(k) == old(self).count_of(k) + other.count_of(k),
            final(self).total() == old(self).total() + other.total(),
    {
        let ghost o = other.entries@;
        let n = other.entries.len();
        let mut i: usize = 0;
        proof {
            assert(o.take(0) =~= Seq::<(String, u64)>::empty());
        }
        while i < n
            invariant
                i <= n,
                n == o.len(),
                other.entries@ == o,
                other.wf(),
                self.wf(),
                old(self).total() + other.total() <= u64::MAX,
                old(self).wf(),
                forall|k: Seq<char>|
                    #[trigger] self.count_of(k) == old(self).count_of(k) + ccount(o.take(i as int), k),
                self.total() == old(self).total() + csum(o.take(i as int)),
            decreases n - i,
        {
            let key = other.entries[i].0.clone();
            let c = other.entries[i].1;
            proof {
                let t1 = o.take(i + 1);
                assert(t1.drop_last() =~= o.take(i as int));
                assert(t1.last() == o[i as int]);
                assert(o.take(n as int) =~= o);
                assert(t1 + o.skip(i + 1) =~= o);
                lemma_ccount_concat(t1, o.skip(i + 1), key@);
                lemma_csum_concat(t1, o.skip(i + 1));
                lemma_ccount_le_csum(o.skip(i + 1), key@);
                assert(ccount(o.take(i as int), key@) + c <= ccount(o, key@));
                lemma_ccount_le_csum(old(self).entries@, key@);
                lemma_ccount_le_csum(o, key@);
                assert(csum(o) == other.total());
            }
            self.add_count(&key, c);
            proof {
                let t1 = o.take(i + 1);
                assert forall|k: Seq<char>| true implies #[trigger] self.count_of(k) == old(
                    self,
                ).count_of(k) + ccount(t1, k) by {
                    assert(t1.drop_last() =~= o.take(i as int));
                    assert(t1.last() == o[i as int]);
                }
            }
            i = i + 1;
        }
        proof {
            assert(o.take(n as int) =~= o);
        }
    }

    /// The map's total, when it fits a 64-bit count.
    pub fn total_checked(&self) -> (r: Option<u64>)
        ensures
            match r {
                Some(t) => t as nat == self.total(),
                None => self.total() > u64::MAX,
            },
    {
        let n = self.entries.len();
        let mut t: u64 = 0;
        let mut i: usize = 0;
        proof {
            assert(self.entries@.take(0) =~= Seq::<(String, u64)>::empty());
        }
        while i < n
            invariant
                i <= n,
                n == self.entries@.len(),
                t as nat == csum(self.entries@.take(i as int)),
            decreases n - i,
        {
            let c = self.entries[i].1;
            proof {
                let t1 = self.entries@.take(i + 1);
                assert(t1.drop_last() =~= self.entries@.take(i as int));
                assert(t1.last() == self.entries@[i as int]);
                assert(t1 + self.entries@.skip(i + 1) =~= self.entries@);
                lemma_csum_concat(t1, self.entries@.skip(i + 1));
            }
            match t.checked_add(c) {
                Some(t2) => {
                    t = t2;
                },
                None => {
                    return None;
                },
            }
            i = i + 1;
        }
        proof {
            assert(self.entries@.take(n as int) =~= self.entries@);
        }
        Some(t)
    }

    /// Merges `other` in when the summed totals fit a 64-bit count;
    /// otherwise reports failure and leaves this map untouched.
    pub fn try_merge(&mut self, other: &FrequencyMap) -> (ok: bool)
        requires
            old(self).wf(),
            other.wf(),
        ensures
            final(self).wf(),
            ok ==> forall|k: Seq<char>|
                #[trigger] final(self).count_of(k) == old(self).count_of(k) + other.count_of(k),
            ok ==> final(self).total() == old(self).total() + other.total(),
            !ok ==> *final(self) == *old(self) && old(self).total() + other.total() > u64::MAX,
    {
        let st = match self.total_checked() {
            Some(t) => t,
            None => {
                return false;
            },
        };
        let ot = match other.total_checked() {
            Some(t) => t,
            None => {
                return false;
            },
        };
        match st.checked_add(ot) {
            Some(_) => {
                self.merge(other);
                true
            },
            None => false,
        }
    }
}

/// Counts the normalized words of a sequence of lines: each line is split
/// on whitespace runs, each token is normalized, and empty results are
/// discarded.  The resulting map counts exactly the lines' keys; its total
/// is the number of accepted tokens.
pub fn count_words(lines: &Vec<String>) -> (m: FrequencyMap)
    requires
        keys_of_lines(lines.deep_view()).len() <= u64::MAX,
    ensures
        m.wf(),
        forall|k: Seq<char>|
            #[trigger] m.count_of(k) == count_occ(keys_of_lines(lines.deep_view()), k),
        m.total() == keys_of_lines(lines.deep_view()).len(),
{
    let ghost ldv = lines.deep_view();
    let ghost full = keys_of_lines(ldv);
    let mut m = FrequencyMap::new();
    let n = lines.len();
    let mut i: usize = 0;
    proof {
        assert(ldv.take(0) =~= Seq::<Seq<char>>::empty());
        assert(keys_of_lines(ldv.take(0)) =~= Seq::<Seq<char>>::empty());
        assert(ldv.len() == n);
    }
    while i < n
        invariant
            i <= n,
            n == lines@.len(),
            ldv == lines.deep_view(),
            ldv.len() == n,
            full == keys_of_lines(ldv),
            full.len() <= u64::MAX,
            m.wf(),
            forall|k: Seq<char>|
                #[trigger] m.count_of(k) == count_occ(keys_of_lines(ldv.take(i as int)), k),
            m.total() == keys_of_lines(ldv.take(i as int)).len(),
        decreases n - i,
    {
        let ghost kpre = keys_of_lines(ldv.take(i as int));
        let ghost kline = keys_of_line(ldv[i as int]);
        proof {
            assert(ldv.take(i + 1).drop_last() =~= ldv.take(i as int));
            assert(ldv.take(i + 1).last() == ldv[i as int]);
            assert(keys_of_lines(ldv.take(i + 1)) == kpre + kline);
            assert(ldv.take(i + 1) + ldv.skip(i + 1) =~= ldv);
            crate::words::lemma_keys_of_lines_concat(ldv.take(i + 1), ldv.skip(i + 1));
            assert(full.len() == kpre.len() + kline.len() + keys_of_lines(ldv.skip(i + 1)).len());
            assert(lines@[i as int]@ == ldv[i as int]);
        }
        let ts = split_tokens(lines[i].as_str());
        let ghost tdv = ts.deep_view();
        proof {
            assert(tdv == tokens_of(ldv[i as int]));
            assert(kline == keys_of_tokens(tdv));
            assert(tdv.take(0) =~= Seq::<Seq<char>>::empty());
            assert(keys_of_tokens(tdv.take(0)) =~= Seq::<Seq<char>>::empty());
            assert(kpre + keys_of_tokens(tdv.take(0)) =~= kpre);
        }
        let tn = ts.len();
        let mut j: usize = 0;
        while j < tn
            invariant
                j <= tn,
                tn == ts@.len(),
                tdv == ts.deep_view(),
                tdv.len() == tn,
                kline == keys_of_tokens(tdv),
                full.len() <= u64::MAX,
                kpre.len() + kline.len() <= full.len(),
                m.wf(),
                forall|k: Seq<char>|
                    #[trigger] m.count_of(k) == count_occ(
                        kpre + keys_of_tokens(tdv.take(j as int)),
                        k,
                    ),
                m.total() == (kpre + keys_of_tokens(tdv.take(j as int))).len(),
            decreases tn - j,
        {
            let ghost cur = kpre + keys_of_tokens(tdv.take(j as int));
            proof {
                assert(tdv.take(j + 1).drop_last() =~= tdv.take(j as int));
                assert(tdv.take(j + 1).last() == tdv[j as int]);
                assert(tdv.take(j + 1) + tdv.skip(j + 1) =~= tdv);
                crate::words::lemma_keys_of_tokens_concat(tdv.take(j + 1), tdv.skip(j + 1));
                assert(kline.len() == keys_of_tokens(tdv.take(j + 1)).len() + keys_of_tokens(
                    tdv.skip(j + 1),
                ).len());
                assert(ts@[j as int]@ == tdv[j as int]);
            }
            let w = process_word(ts[j].as_str());
            if !w.as_str().is_empty() {
                proof {
                    assert(keys_of_tokens(tdv.take(j + 1)) == keys_of_tokens(tdv.take(j as int))
                        + seq![norm_of(tdv[j as int])]);
                    assert(cur.push(w@) =~= kpre + keys_of_tokens(tdv.take(j + 1)));
                    lemma_count_occ_le(cur, w@);
                    assert(m.count_of(w@) <= cur.len());
                    assert(cur.len() + 1 == (kpre + keys_of_tokens(tdv.take(j + 1))).len());
                    assert(cur.len() + 1 <= kpre.len() + kline.len());
                }
                m.add_count(&w, 1);
                proof {
                    let next = cur.push(w@);
                    assert forall|k: Seq<char>| true implies #[trigger] m.count_of(k) == count_occ(
                        next,
                        k,
                    ) by {
                        assert(next.drop_last() =~= cur);
                        assert(next.last() == w@);
                    }
                    assert(m.total() == next.len());
                }
            } else {
                proof {
                    assert(keys_of_tokens(tdv.take(j + 1)) =~= keys_of_tokens(tdv.take(j as int)));
                }
            }
            j = j + 1;
        }
        proof {
            assert(tdv.take(tn as int) =~= tdv);
            assert(kpre + keys_of_tokens(tdv) =~= keys_of_lines(ldv.take(i + 1)));
        }
        i = i + 1;
    }
    proof {
        assert(ldv.take(n as int) =~= ldv);
    }
    m
}

} // verus!
