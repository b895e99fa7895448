//! The properties the engine guarantees, proved over the cache and detector
//! models: deduplication of repeated fingerprints, the LRU capacity bound,
//! debounced notification, and re-arming after an episode ends.

use vstd::prelude::*;

use crate::cache::CacheModel;
use crate::cache::ErrorInfo;
use crate::cache::MAX_TS;
use crate::cache::MIN_TS;
use crate::cache::bounded_records;
use crate::cache::distinct_keys;
use crate::cache::key_index;
use crate::cache::lemma_key_index;
use crate::cache::lemma_key_index_of;
use crate::cache::lemma_put_model_wf;
use crate::cache::lemma_remove_key_present;
use crate::cache::model_has_key;
use crate::cache::upsert_model;
use crate::cache::upserted_record;
use crate::detector::eval_record;
use crate::detector::fires;
use crate::detector::sweep_notes;

verus! {

/// Dedup: a second sighting of a fingerprint already in the cache updates
/// its one record instead of adding another. The cache does not grow, the
/// fingerprint stays present, and no two entries carry it.
pub proof fn lemma_dedup(m: CacheModel, cap: nat, k: Seq<char>, t1: i64, t2: i64)
    requires
        distinct_keys(m),
        m.len() <= cap,
        1 <= cap,
    ensures
        ({
            let m1 = upsert_model(m, cap, k, t1);
            let m2 = upsert_model(m1, cap, k, t2);
            &&& model_has_key(m1, k)
            &&& m2.len() == m1.len()
            &&& model_has_key(m2, k)
            &&& forall|i: int| 0 <= i < m2.len() && m2[i].0 == k ==> i == key_index(m2, k)
        }),
{
    let r1 = upserted_record(m, k, t1);
    let m1 = upsert_model(m, cap, k, t1);
    lemma_put_model_wf(m, cap, k, r1);
    lemma_key_index_of(m1, k, 0);
    let r2 = upserted_record(m1, k, t2);
    let m2 = upsert_model(m1, cap, k, t2);
    lemma_put_model_wf(m1, cap, k, r2);
    lemma_remove_key_present(m1, k);
    m1.remove_ensures(0);
    lemma_key_index_of(m2, k, 0);
    assert forall|i: int| 0 <= i < m2.len() && m2[i].0 == k implies i == key_index(m2, k) by {
        lemma_key_index_of(m2, k, i);
    }
}

/// The model after upserting each fingerprint of `ks` in turn, at the
/// matching time of `ts`.
pub open spec fn upsert_all(m: CacheModel, cap: nat, ks: Seq<Seq<char>>, ts: Seq<i64>) -> CacheModel
    decreases ks.len(),
{
    if ks.len() == 0 {
        m
    } else {
        upsert_all(upsert_model(m, cap, ks[0], ts[0]), cap, ks.drop_first(), ts.drop_first())
    }
}

proof fn lemma_upsert_all_snoc(
    m: CacheModel,
    cap: nat,
    ks: Seq<Seq<char>>,
    ts: Seq<i64>,
    k: Seq<char>,
    t: i64,
)
    requires
        ts.len() == ks.len(),
    ensures
        upsert_all(m, cap, ks.push(k), ts.push(t)) == upsert_model(
            upsert_all(m, cap, ks, ts),
            cap,
            k,
            t,
        ),
    decreases ks.len(),
{
    if ks.len() == 0 {
        assert(ks.push(k)[0] == k && ts.push(t)[0] == t);
        assert(ks.push(k).drop_first() =~= Seq::<Seq<char>>::empty());
        assert(ts.push(t).drop_first() =~= Seq::<i64>::empty());
        assert(upsert_all(m, cap, ks.push(k), ts.push(t)) == upsert_all(
            upsert_model(m, cap, k, t),
            cap,
            Seq::<Seq<char>>::empty(),
            Seq::<i64>::empty(),
        ));
        assert(upsert_all(upsert_model(m, cap, k, t), cap, Seq::<Seq<char>>::empty(),
            Seq::<i64>::empty()) == upsert_model(m, cap, k, t));
        assert(upsert_all(m, cap, ks, ts) == m);
    } else {
        assert(ks.push(k)[0] == ks[0] && ts.push(t)[0] == ts[0]);
        assert(ks.push(k).drop_first() =~= ks.drop_first().push(k));
        assert(ts.push(t).drop_first() =~= ts.drop_first().push(t));
        lemma_upsert_all_snoc(upsert_model(m, cap, ks[0], ts[0]), cap, ks.drop_first(),
            ts.drop_first(), k, t);
    }
}

/// Upserting fresh, pairwise distinct fingerprints below the capacity stacks
/// them, newest first, on top of what was there.
proof fn lemma_upsert_all_fresh(m: CacheModel, cap: nat, ks: Seq<Seq<char>>, ts: Seq<i64>)
    requires
        distinct_keys(m),
        m.len() + ks.len() <= cap,
        ts.len() == ks.len(),
        forall|i: int, j: int| 0 <= i < j < ks.len() ==> ks[i] != ks[j],
        forall|i: int| 0 <= i < ks.len() ==> !model_has_key(m, #[trigger] ks[i]),
    ensures
        ({
            let r = upsert_all(m, cap, ks, ts);
            &&& r.len() == m.len() + ks.len()
            &&& distinct_keys(r)
            &&& forall|p: int| 0 <= p < ks.len() ==> (#[trigger] r[p]).0 == ks[ks.len() - 1 - p]
            &&& forall|p: int| ks.len() <= p < r.len() ==> #[trigger] r[p] == m[p - ks.len()]
        }),
    decreases ks.len(),
{
    if ks.len() == 0 {
    } else {
        let k0 = ks[0];
        let rec0 = upserted_record(m, k0, ts[0]);
        let m1 = upsert_model(m, cap, k0, ts[0]);
        lemma_key_index(m, k0);
        assert(m1 == seq![(k0, rec0)] + m);
        lemma_put_model_wf(m, cap, k0, rec0);
        let ks1 = ks.drop_first();
        let ts1 = ts.drop_first();
        assert(forall|i: int| 0 <= i < ks1.len() ==> ks1[i] == ks[i + 1]);
        assert(forall|i: int| 0 <= i < ts1.len() ==> ts1[i] == ts[i + 1]);
        assert forall|i: int| 0 <= i < ks1.len() implies !model_has_key(m1, #[trigger] ks1[i]) by {
            lemma_key_index(m1, ks1[i]);
            if model_has_key(m1, ks1[i]) {
                let w = key_index(m1, ks1[i]);
                if w == 0 {
                    assert(ks[0] == ks[i + 1]);
                } else {
                    assert(m1[w] == m[w - 1]);
                    lemma_key_index_of(m, ks1[i], w - 1);
                }
            }
        }
        lemma_upsert_all_fresh(m1, cap, ks1, ts1);
        let r = upsert_all(m, cap, ks, ts);
        assert(r == upsert_all(m1, cap, ks1, ts1));
        assert forall|p: int| 0 <= p < ks.len() implies (#[trigger] r[p]).0 == ks[ks.len() - 1
            - p] by {
            if p < ks1.len() {
                assert(r[p].0 == ks1[ks1.len() - 1 - p]);
            } else {
                assert(r[p] == m1[p - ks1.len()]);
                assert(m1[0] == (k0, rec0));
            }
        }
        assert forall|p: int| ks.len() <= p < r.len() implies #[trigger] r[p] == m[p
            - ks.len()] by {
            assert(r[p] == m1[p - ks1.len()]);
            assert(m1[p - ks1.len()] == m[p - ks1.len() - 1]);
        }
    }
}

/// LRU bound: upserting `cap + 1` pairwise distinct fingerprints into an
/// empty cache of capacity `cap` leaves exactly `cap` records; the first
/// (least recently used) fingerprint is gone, all later ones are present.
pub proof fn lemma_lru_bound(cap: nat, ks: Seq<Seq<char>>, ts: Seq<i64>)
    requires
        1 <= cap,
        ks.len() == cap + 1,
        ts.len() == ks.len(),
        forall|i: int, j: int| 0 <= i < j < ks.len() ==> ks[i] != ks[j],
    ensures
        ({
            let r = upsert_all(Seq::empty(), cap, ks, ts);
            &&& r.len() == cap
            &&& !model_has_key(r, ks[0])
            &&& forall|i: int| 1 <= i < ks.len() ==> model_has_key(r, #[trigger] ks[i])
        }),
{
    let m0 = Seq::<(Seq<char>, ErrorInfo)>::empty();
    let kpre = ks.take(cap as int);
    let tpre = ts.take(cap as int);
    let klast = ks[cap as int];
    let tlast = ts[cap as int];
    assert(ks =~= kpre.push(klast));
    assert(ts =~= tpre.push(tlast));
    lemma_upsert_all_snoc(m0, cap, kpre, tpre, klast, tlast);
    assert forall|i: int| 0 <= i < kpre.len() implies !model_has_key(m0, #[trigger] kpre[i]) by {
        lemma_key_index(m0, kpre[i]);
    }
    lemma_upsert_all_fresh(m0, cap, kpre, tpre);
    let r0 = upsert_all(m0, cap, kpre, tpre);
    assert(r0.len() == cap);
    assert forall|idx: int| 0 <= idx < r0.len() implies (#[trigger] r0[idx]).0 == ks[cap - 1
        - idx] by {
        assert(r0[idx].0 == kpre[kpre.len() - 1 - idx]);
    }
    assert(!model_has_key(r0, klast)) by {
        lemma_key_index(r0, klast);
        if model_has_key(r0, klast) {
            let w = key_index(r0, klast);
            assert(r0[w].0 == ks[cap - 1 - w]);
        }
    }
    let rec = upserted_record(r0, klast, tlast);
    let r = upsert_model(r0, cap, klast, tlast);
    assert(r == seq![(klast, rec)] + r0.drop_last());
    lemma_put_model_wf(r0, cap, klast, rec);
    assert(r.len() == cap);
    assert forall|idx: int| 0 <= idx < r.len() implies (#[trigger] r[idx]).0 == (if idx == 0 {
        klast
    } else {
        ks[cap - idx]
    }) by {
        if idx > 0 {
            assert(r[idx] == r0.drop_last()[idx - 1]);
            assert(r0.drop_last()[idx - 1] == r0[idx - 1]);
            assert(r0[idx - 1].0 == ks[cap - 1 - (idx - 1)]);
        }
    }
    assert(!model_has_key(r, ks[0])) by {
        lemma_key_index(r, ks[0]);
        if model_has_key(r, ks[0]) {
            let w = key_index(r, ks[0]);
            if w == 0 {
                assert(ks[cap as int] == ks[0]);
            } else {
                assert(ks[cap - w] == ks[0]);
            }
        }
    }
    assert forall|i: int| 1 <= i < ks.len() implies model_has_key(r, #[trigger] ks[i]) by {
        if i == cap {
            assert(r[0].0 == ks[i]);
            lemma_key_index_of(r, ks[i], 0);
        } else {
            assert(r[cap - i].0 == ks[i]);
            lemma_key_index_of(r, ks[i], cap - i);
        }
    }
}

/// Debounce: an evaluation that notifies arms the record, and the directly
/// following evaluation does not notify again; a record whose period is
/// still within the flap window never notifies and is left untouched.
pub proof fn lemma_debounce(r: ErrorInfo, flap_interval: i64)
    ensures
        fires(r, flap_interval) ==> !fires(eval_record(r, flap_interval), flap_interval),
        r.update_period < flap_interval ==> !fires(r, flap_interval) && eval_record(
            r,
            flap_interval,
        ) == r,
{
}

/// One sweep notifies at most once per fingerprint: under distinct cache
/// keys, every notification of a sweep names a fingerprint that fires, at
/// most once each.
pub proof fn lemma_sweep_once_per_fingerprint(m: CacheModel, flap_interval: i64)
    requires
        distinct_keys(m),
    ensures
        ({
            let notes = sweep_notes(m, flap_interval);
            &&& forall|j: int|
                0 <= j < notes.len() ==> model_has_key(m, (#[trigger] notes[j]).0)
                    && fires(m[key_index(m, notes[j].0)].1, flap_interval)
                    && notes[j].1 == m[key_index(m, notes[j].0)].1.last_update
            &&& forall|a: int, b: int| 0 <= a < b < notes.len() ==> notes[a].0 != notes[b].0
        }),
    decreases m.len(),
{
    if m.len() == 0 {
    } else {
        let pre = m.drop_last();
        assert(forall|i: int| 0 <= i < pre.len() ==> pre[i] == m[i]);
        lemma_sweep_once_per_fingerprint(pre, flap_interval);
        let notes = sweep_notes(m, flap_interval);
        let pnotes = sweep_notes(pre, flap_interval);
        assert forall|j: int| 0 <= j < notes.len() implies model_has_key(m, (#[trigger] notes[j]).0)
            && fires(m[key_index(m, notes[j].0)].1, flap_interval) && notes[j].1 == m[key_index(
            m,
            notes[j].0,
        )].1.last_update by {
            if j < pnotes.len() {
                assert(notes[j] == pnotes[j]);
                let w = key_index(pre, notes[j].0);
                lemma_key_index(pre, notes[j].0);
                lemma_key_index_of(m, notes[j].0, w);
            } else {
                assert(fires(m.last().1, flap_interval));
                assert(notes[j] == (m.last().0, m.last().1.last_update));
                lemma_key_index_of(m, m.last().0, m.len() - 1);
            }
        }
        assert forall|a: int, b: int| 0 <= a < b < notes.len() implies notes[a].0 != notes[b].0 by {
            if b < pnotes.len() {
                assert(notes[a] == pnotes[a] && notes[b] == pnotes[b]);
            } else if b == pnotes.len() && b < notes.len() {
                assert(notes[a] == pnotes[a]);
                let w = key_index(pre, pnotes[a].0);
                lemma_key_index(pre, pnotes[a].0);
                assert(m[w].0 == pnotes[a].0);
                assert(notes[b].0 == m.last().0);
                assert(m[w].0 != m[m.len() - 1].0);
            }
        }
    }
}

/// Re-arm: once a record's period has reached the flap interval, at most two
/// evaluations pass before a notification fires: it fires now, or it was
/// still armed, is disarmed now, and fires at the next evaluation.
pub proof fn lemma_rearm_toggle(r: ErrorInfo, flap_interval: i64)
    requires
        r.update_period >= flap_interval,
    ensures
        fires(r, flap_interval) || fires(eval_record(r, flap_interval), flap_interval),
{
}

/// Re-arm after resumption: a fingerprint whose notification was disarmed
/// and which recurs only after at least a flap interval notifies at the very
/// next evaluation.
pub proof fn lemma_rearm_resume(m: CacheModel, k: Seq<char>, now: i64, flap_interval: i64)
    requires
        bounded_records(m),
        MIN_TS <= now <= MAX_TS,
        model_has_key(m, k),
        !m[key_index(m, k)].1.email_sent,
        now - m[key_index(m, k)].1.last_update >= flap_interval,
    ensures
        fires(upserted_record(m, k, now), flap_interval),
{
    lemma_key_index(m, k);
}

} // verus!
