//! A bounded, least-recently-used cache of error records, keyed by the
//! error's fingerprint (its normalized message text).
//!
//! The cache itself is the `lru` crate's `LruCache`; its behaviour is stated
//! over a mathematical model `lru_model`, a sequence of key/record pairs in
//! most-recently-used-first order.

use vstd::prelude::*;

verus! {

/// Lower bound on timestamps the cache accepts (milliseconds since the epoch).
/// Keeping timestamps within `[MIN_TS, MAX_TS]` keeps every difference of two
/// of them inside `i64`.
pub const MIN_TS: i64 = -0x1000_0000_0000_0000;

/// Upper bound on timestamps the cache accepts (milliseconds since the epoch).
pub const MAX_TS: i64 = 0x1000_0000_0000_0000;

/// One entry per distinct error fingerprint.
#[derive(Clone, Copy, Debug, PartialEq, Eq, Structural)]
pub struct ErrorInfo {
    /// Timestamp (milliseconds) of the most recent occurrence.
    pub last_update: i64,
    /// Elapsed milliseconds between the two most recent occurrences;
    /// zero for a fingerprint seen only once.
    pub update_period: i64,
    /// True while a notification is in effect for the ongoing flap episode.
    pub email_sent: bool,
}

/// The mathematical model of an `LruCache`: its key/record pairs in
/// most-recently-used-first order.
pub type CacheModel = Seq<(Seq<char>, ErrorInfo)>;

#[verifier::external_type_specification]
#[verifier::external_body]
#[verifier::reject_recursive_types(K)]
#[verifier::reject_recursive_types(V)]
#[verifier::reject_recursive_types(S)]
pub struct ExLruCache<K, V, S>(lru::LruCache<K, V, S>);

/// The contents of an `lru::LruCache`, most recently used first.
pub uninterp spec fn lru_model(c: lru::LruCache<String, ErrorInfo>) -> CacheModel;

/// The capacity the `lru::LruCache` was created with.
pub uninterp spec fn lru_cap(c: lru::LruCache<String, ErrorInfo>) -> nat;

/// Index of the first pair in `m` whose key is `k`, or `-1` if there is none.
pub open spec fn key_index(m: CacheModel, k: Seq<char>) -> int
    decreases m.len(),
{
    if m.len() == 0 {
        -1
    } else if m[0].0 == k {
        0
    } else if key_index(m.drop_first(), k) < 0 {
        -1
    } else {
        key_index(m.drop_first(), k) + 1
    }
}

/// Whether some pair in `m` has key `k`.
pub open spec fn model_has_key(m: CacheModel, k: Seq<char>) -> bool {
    key_index(m, k) >= 0
}

/// The record stored under key `k`, if any.
pub open spec fn model_lookup(m: CacheModel, k: Seq<char>) -> Option<ErrorInfo> {
    if model_has_key(m, k) {
        Some(m[key_index(m, k)].1)
    } else {
        None
    }
}

/// `m` with every pair keyed `k` removed, order otherwise kept.
pub open spec fn remove_key(m: CacheModel, k: Seq<char>) -> CacheModel
    decreases m.len(),
{
    if m.len() == 0 {
        m
    } else if m[0].0 == k {
        remove_key(m.drop_first(), k)
    } else {
        seq![m[0]] + remove_key(m.drop_first(), k)
    }
}

/// No two pairs of `m` share a key.
pub open spec fn distinct_keys(m: CacheModel) -> bool {
    forall|i: int, j: int| 0 <= i < j < m.len() ==> m[i].0 != m[j].0
}

/// What `lru::LruCache::put` does to the model: the pair moves to (or enters
/// at) the most-recently-used end; when a new key arrives at capacity, the
/// least-recently-used pair leaves.
pub open spec fn lru_put_model(m: CacheModel, cap: nat, k: Seq<char>, v: ErrorInfo) -> CacheModel {
    if model_has_key(m, k) {
        seq![(k, v)] + remove_key(m, k)
    } else if m.len() >= cap {
        seq![(k, v)] + m.drop_last()
    } else {
        seq![(k, v)] + m
    }
}

pub proof fn lemma_key_index(m: CacheModel, k: Seq<char>)
    ensures
        -1 <= key_index(m, k) < m.len(),
        key_index(m, k) >= 0 ==> m[key_index(m, k)].0 == k,
        key_index(m, k) < 0 ==> forall|i: int| 0 <= i < m.len() ==> m[i].0 != k,
        forall|i: int| 0 <= i < key_index(m, k) ==> m[i].0 != k,
    decreases m.len(),
{
    if m.len() == 0 {
    } else if m[0].0 == k {
    } else {
        lemma_key_index(m.drop_first(), k);
        assert(forall|i: int| 1 <= i < m.len() ==> m[i] == m.drop_first()[i - 1]);
    }
}

/// Under distinct keys, `key_index` finds exactly the pair that is there.
pub proof fn lemma_key_index_of(m: CacheModel, k: Seq<char>, i: int)
    requires
        distinct_keys(m),
        0 <= i < m.len(),
        m[i].0 == k,
    ensures
        key_index(m, k) == i,
{
    lemma_key_index(m, k);
    if key_index(m, k) < 0 {
        assert(m[i].0 != k);
    }
}

pub proof fn lemma_remove_key_absent(m: CacheModel, k: Seq<char>)
    requires
        !model_has_key(m, k),
    ensures
        remove_key(m, k) == m,
    decreases m.len(),
{
    if m.len() == 0 {
        assert(remove_key(m, k) =~= m);
    } else {
        assert(m[0].0 != k);
        lemma_remove_key_absent(m.drop_first(), k);
        assert(remove_key(m, k) =~= m);
    }
}

/// Under distinct keys, removing a present key removes exactly its pair.
pub proof fn lemma_remove_key_present(m: CacheModel, k: Seq<char>)
    requires
        distinct_keys(m),
        model_has_key(m, k),
    ensures
        remove_key(m, k) == m.remove(key_index(m, k)),
    decreases m.len(),
{
    lemma_key_index(m, k);
    let i = key_index(m, k);
    if m[0].0 == k {
        assert(forall|j: int| 0 <= j < m.drop_first().len() ==> m.drop_first()[j] == m[j + 1]);
        lemma_key_index(m.drop_first(), k);
        if model_has_key(m.drop_first(), k) {
            let j = key_index(m.drop_first(), k);
            assert(m[j + 1].0 == k);
            assert(false);
        }
        lemma_remove_key_absent(m.drop_first(), k);
        assert(remove_key(m, k) =~= m.remove(0));
    } else {
        assert(forall|j: int| 0 <= j < m.drop_first().len() ==> m.drop_first()[j] == m[j + 1]);
        assert(forall|a: int, b: int|
            0 <= a < b < m.drop_first().len() ==> m.drop_first()[a].0 != m.drop_first()[b].0);
        lemma_key_index(m.drop_first(), k);
        lemma_remove_key_present(m.drop_first(), k);
        assert(remove_key(m, k) =~= m.remove(i));
    }
}

/// What the model of a `put` looks like when the cache is well formed:
/// its length stays within the capacity and its keys stay distinct.
pub proof fn lemma_put_model_wf(m: CacheModel, cap: nat, k: Seq<char>, v: ErrorInfo)
    requires
        distinct_keys(m),
        m.len() <= cap,
        cap >= 1,
    ensures
        distinct_keys(lru_put_model(m, cap, k, v)),
        lru_put_model(m, cap, k, v).len() <= cap,
        lru_put_model(m, cap, k, v).len() >= 1,
        lru_put_model(m, cap, k, v)[0] == (k, v),
        forall|j: int|
            1 <= j < lru_put_model(m, cap, k, v).len()
                ==> m.contains(#[trigger] lru_put_model(m, cap, k, v)[j])
                    && lru_put_model(m, cap, k, v)[j].0 != k,
{
    let r = lru_put_model(m, cap, k, v);
    lemma_key_index(m, k);
    if model_has_key(m, k) {
        let i = key_index(m, k);
        lemma_remove_key_present(m, k);
        m.remove_ensures(i);
        let t = m.remove(i);
        assert forall|j: int| 1 <= j < r.len() implies m.contains(#[trigger] r[j]) && r[j].0 != k by {
            assert(r[j] == t[j - 1]);
            if j - 1 < i {
                assert(t[j - 1] == m[j - 1]);
                assert(r[j].0 != k) by {
                    if m[j - 1].0 == k {
                        lemma_key_index_of(m, k, j - 1);
                    }
                }
            } else {
                assert(t[j - 1] == m[j]);
                assert(r[j].0 != k) by {
                    if m[j].0 == k {
                        lemma_key_index_of(m, k, j);
                    }
                }
            }
        }
        assert forall|a: int, b: int| 0 <= a < b < r.len() implies r[a].0 != r[b].0 by {
            if a >= 1 {
                let ja = if a - 1 < i { a - 1 } else { a };
                let jb = if b - 1 < i { b - 1 } else { b };
                assert(r[a] == m[ja] && r[b] == m[jb]);
            }
        }
    } else {
        assert forall|j: int| 1 <= j < r.len() implies m.contains(#[trigger] r[j]) && r[j].0 != k by {
            if m.len() >= cap {
                assert(r[j] == m.drop_last()[j - 1]);
                assert(r[j] == m[j - 1]);
            } else {
                assert(r[j] == m[j - 1]);
            }
        }
        assert forall|a: int, b: int| 0 <= a < b < r.len() implies r[a].0 != r[b].0 by {
            if a >= 1 {
                assert(r[a] == m[a - 1] && r[b] == m[b - 1]);
            } else {
                assert(r[b] == m[b - 1]);
            }
        }
    }
}

/// Relies on `lru::LruCache::new`: the new cache is empty and holds at most
/// `cap` entries.
#[verifier::external_body]
fn lru_new(cap: usize) -> (c: lru::LruCache<String, ErrorInfo>)
    requires
        cap >= 1,
    ensures
        lru_model(c) == Seq::<(Seq<char>, ErrorInfo)>::empty(),
        lru_cap(c) == cap as nat,
{
    lru::LruCache::new(std::num::NonZeroUsize::new(cap).unwrap())
}

/// Relies on `lru::LruCache::len`: the number of entries in the cache.
#[verifier::external_body]
fn lru_len(c: &lru::LruCache<String, ErrorInfo>) -> (n: usize)
    ensures
        n as nat == lru_model(*c).len(),
{
    c.len()
}

/// Relies on `lru::LruCache::peek`: returns the record under the key without
/// changing the recency order.
#[verifier::external_body]
fn lru_peek(c: &lru::LruCache<String, ErrorInfo>, k: &str) -> (r: Option<ErrorInfo>)
    ensures
        r == model_lookup(lru_model(*c), k@),
{
    c.peek(k).copied()
}

/// Relies on `lru::LruCache::put`: inserts or updates the pair at the
/// most-recently-used end, evicting the least-recently-used pair when a new
/// key arrives at capacity.
#[verifier::external_body]
fn lru_put(c: &mut lru::LruCache<String, ErrorInfo>, k: String, v: ErrorInfo)
    ensures
        lru_cap(*final(c)) == lru_cap(*old(c)),
        lru_model(*final(c)) == lru_put_model(lru_model(*old(c)), lru_cap(*old(c)), k@, v),
{
    c.put(k, v);
}

/// `m` with the record under `k`, if any, replaced by `v`; the recency order
/// is untouched.
pub open spec fn set_model(m: CacheModel, k: Seq<char>, v: ErrorInfo) -> CacheModel {
    if model_has_key(m, k) {
        m.update(key_index(m, k), (k, v))
    } else {
        m
    }
}

/// Relies on `lru::LruCache::iter`: all entries, most recently used first,
/// without changing the recency order.
#[verifier::external_body]
fn lru_entries(c: &lru::LruCache<String, ErrorInfo>) -> (v: Vec<(String, ErrorInfo)>)
    ensures
        v@.len() == lru_model(*c).len(),
        forall|i: int|
            0 <= i < v@.len() ==> ((#[trigger] v@[i]).0@, v@[i].1) == lru_model(*c)[i],
{
    c.iter().map(|(k, r)| (k.clone(), *r)).collect()
}

/// Relies on `lru::LruCache::peek_mut`: replaces the record under the key,
/// if it is present, without changing the recency order.
#[verifier::external_body]
fn lru_set(c: &mut lru::LruCache<String, ErrorInfo>, k: &str, v: ErrorInfo)
    ensures
        lru_cap(*final(c)) == lru_cap(*old(c)),
        lru_model(*final(c)) == set_model(lru_model(*old(c)), k@, v),
{
    if let Some(r) = c.peek_mut(k) {
        *r = v;
    }
}

/// All records of `m` carry timestamps in `[MIN_TS, MAX_TS]`.
pub open spec fn bounded_records(m: CacheModel) -> bool {
    forall|i: int| 0 <= i < m.len() ==> MIN_TS <= (#[trigger] m[i]).1.last_update <= MAX_TS
}

/// The record an upsert leaves under key `k`: a fresh one on first sighting,
/// otherwise the old one with its timestamp renewed, its period set to the
/// elapsed time since the previous occurrence, and its armed flag kept.
pub open spec fn upserted_record(m: CacheModel, k: Seq<char>, now: i64) -> ErrorInfo {
    if model_has_key(m, k) {
        let prev = m[key_index(m, k)].1;
        ErrorInfo {
            last_update: now,
            update_period: (now - prev.last_update) as i64,
            email_sent: prev.email_sent,
        }
    } else {
        ErrorInfo { last_update: now, update_period: 0, email_sent: false }
    }
}

/// What an upsert does to the whole model.
pub open spec fn upsert_model(m: CacheModel, cap: nat, k: Seq<char>, now: i64) -> CacheModel {
    lru_put_model(m, cap, k, upserted_record(m, k, now))
}

/// A capacity-bounded map from error fingerprints to their records, with
/// least-recently-used eviction once the capacity is exceeded.
pub struct ErrorFingerprintCache {
    inner: lru::LruCache<String, ErrorInfo>,
}

impl ErrorFingerprintCache {
    /// The key/record pairs, most recently used first.
    pub closed spec fn model(&self) -> CacheModel {
        lru_model(self.inner)
    }

    /// The bound on the number of live entries.
    pub closed spec fn capacity(&self) -> nat {
        lru_cap(self.inner)
    }

    pub open spec fn wf(&self) -> bool {
        &&& distinct_keys(self.model())
        &&& self.model().len() <= self.capacity()
        &&& 1 <= self.capacity()
        &&& bounded_records(self.model())
    }

    pub fn new(cache_size: usize) -> (c: Self)
        requires
            cache_size >= 1,
        ensures
            c.wf(),
            c.model() == Seq::<(Seq<char>, ErrorInfo)>::empty(),
            c.capacity() == cache_size as nat,
    {
        ErrorFingerprintCache { inner: lru_new(cache_size) }
    }

    /// The number of live entries; never more than the capacity.
    pub fn len(&self) -> (n: usize)
        ensures
            n as nat == self.model().len(),
    {
        lru_len(&self.inner)
    }

    /// The record under the fingerprint, if any, without touching the
    /// recency order.
    pub fn peek(&self, fingerprint: &str) -> (r: Option<ErrorInfo>)
        ensures
            r == model_lookup(self.model(), fingerprint@),
    {
        lru_peek(&self.inner, fingerprint)
    }

    /// Creates or renews the record under the fingerprint and promotes it to
    /// most recently used; a new key arriving at capacity silently evicts the
    /// least-recently-used record. Returns the stored record and whether it
    /// was newly created.
    pub fn upsert(&mut self, fingerprint: &str, now: i64) -> (r: (ErrorInfo, bool))
        requires
            old(self).wf(),
            MIN_TS <= now <= MAX_TS,
        ensures
            final(self).wf(),
            final(self).capacity() == old(self).capacity(),
            final(self).model() == upsert_model(
                old(self).model(),
                old(self).capacity(),
                fingerprint@,
                now,
            ),
            r.0 == upserted_record(old(self).model(), fingerprint@, now),
            r.1 == !model_has_key(old(self).model(), fingerprint@),
    {
        let ghost m = self.model();
        let ghost cap = self.capacity();
        let prev = lru_peek(&self.inner, fingerprint);
        let rec = match prev {
            Some(p) => {
                proof {
                    lemma_key_index(m, fingerprint@);
                }
                ErrorInfo {
                    last_update: now,
                    update_period: now - p.last_update,
                    email_sent: p.email_sent,
                }
            },
            None => ErrorInfo { last_update: now, update_period: 0, email_sent: false },
        };
        let is_new = prev.is_none();
        lru_put(&mut self.inner, fingerprint.to_owned(), rec);
        proof {
            lemma_put_model_wf(m, cap, fingerprint@, rec);
            let r2 = lru_put_model(m, cap, fingerprint@, rec);
            assert forall|j: int| 0 <= j < r2.len() implies MIN_TS <= (#[trigger] r2[j]).1.last_update
                <= MAX_TS by {
                if j >= 1 {
                    assert(m.contains(r2[j]));
                    let w = choose|w: int| 0 <= w < m.len() && m[w] == r2[j];
                    assert(MIN_TS <= m[w].1.last_update <= MAX_TS);
                }
            }
        }
        (rec, is_new)
    }

    /// A snapshot of all entries, most recently used first; taking it does
    /// not touch the recency order.
    pub fn entries(&self) -> (v: Vec<(String, ErrorInfo)>)
        ensures
            v@.len() == self.model().len(),
            forall|i: int|
                0 <= i < v@.len() ==> ((#[trigger] v@[i]).0@, v@[i].1) == self.model()[i],
    {
        lru_entries(&self.inner)
    }

    /// Replaces the record under the fingerprint, if it is present, without
    /// changing the recency order; does nothing for an absent fingerprint.
    pub fn set_record(&mut self, fingerprint: &str, rec: ErrorInfo)
        requires
            old(self).wf(),
            MIN_TS <= rec.last_update <= MAX_TS,
        ensures
            final(self).wf(),
            final(self).capacity() == old(self).capacity(),
            final(self).model() == set_model(old(self).model(), fingerprint@, rec),
    {
        let ghost m = self.model();
        lru_set(&mut self.inner, fingerprint, rec);
        proof {
            let r = set_model(m, fingerprint@, rec);
            lemma_key_index(m, fingerprint@);
            if model_has_key(m, fingerprint@) {
                let i = key_index(m, fingerprint@);
                assert forall|a: int, b: int| 0 <= a < b < r.len() implies r[a].0 != r[b].0 by {
                    assert(r[a].0 == m[a].0 && r[b].0 == m[b].0);
                }
                assert forall|j: int| 0 <= j < r.len() implies MIN_TS <= (#[trigger] r[j]).1.last_update
                    <= MAX_TS by {
                    if j != i {
                        assert(r[j] == m[j]);
                    }
                }
            }
        }
    }
}

} // verus!
