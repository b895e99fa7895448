//! Flap detection: the periodic sweep that inspects every cached error
//! record and decides, per fingerprint, whether to emit a notification.
//!
//! A record whose `update_period` has reached the flap interval toggles its
//! armed flag: arming emits a notification, disarming stays silent, so one
//! flap episode notifies once and the toggle re-arms the next episode.

use vstd::prelude::*;

use crate::cache::CacheModel;
use crate::cache::ErrorFingerprintCache;
use crate::cache::ErrorInfo;
use crate::cache::lemma_key_index_of;
use crate::cache::set_model;

verus! {

/// One alert event: the flapping fingerprint and its last occurrence.
#[derive(Debug)]
pub struct Notification {
    pub fingerprint: String,
    pub last_update: i64,
}

/// Whether evaluating `r` against `flap_interval` emits a notification:
/// the record's period has reached the flap interval and no notification is
/// in effect yet.
pub open spec fn fires(r: ErrorInfo, flap_interval: i64) -> bool {
    r.update_period >= flap_interval && !r.email_sent
}

/// The record after one evaluation: when its period has reached the flap
/// interval the armed flag toggles; otherwise the record is unchanged.
pub open spec fn eval_record(r: ErrorInfo, flap_interval: i64) -> ErrorInfo {
    if r.update_period >= flap_interval {
        ErrorInfo { email_sent: !r.email_sent, ..r }
    } else {
        r
    }
}

/// The fingerprint/timestamp pairs a sweep over `m` emits, in recency order.
pub open spec fn sweep_notes(m: CacheModel, flap_interval: i64) -> Seq<(Seq<char>, i64)>
    decreases m.len(),
{
    if m.len() == 0 {
        Seq::empty()
    } else if fires(m.last().1, flap_interval) {
        sweep_notes(m.drop_last(), flap_interval) + seq![(m.last().0, m.last().1.last_update)]
    } else {
        sweep_notes(m.drop_last(), flap_interval)
    }
}

/// Evaluates one record: returns the record as the sweep leaves it and
/// whether a notification fires for it.
pub fn evaluate_record(r: ErrorInfo, flap_interval: i64) -> (res: (ErrorInfo, bool))
    ensures
        res.0 == eval_record(r, flap_interval),
        res.1 == fires(r, flap_interval),
{
    if r.update_period >= flap_interval {
        if r.email_sent {
            (ErrorInfo { email_sent: false, ..r }, false)
        } else {
            (ErrorInfo { email_sent: true, ..r }, true)
        }
    } else {
        (r, false)
    }
}

/// One detector pass: evaluates every cached record in place and returns the
/// notifications to emit, one per newly armed fingerprint, in recency order.
pub fn sweep(cache: &mut ErrorFingerprintCache, flap_interval: i64) -> (notes: Vec<Notification>)
    requires
        old(cache).wf(),
    ensures
        final(cache).wf(),
        final(cache).capacity() == old(cache).capacity(),
        final(cache).model().len() == old(cache).model().len(),
        forall|i: int|
            0 <= i < old(cache).model().len() ==> (#[trigger] final(cache).model()[i]).0 == old(
                cache,
            ).model()[i].0 && final(cache).model()[i].1 == eval_record(
                old(cache).model()[i].1,
                flap_interval,
            ),
        notes@.map_values(|n: Notification| (n.fingerprint@, n.last_update)) == sweep_notes(
            old(cache).model(),
            flap_interval,
        ),
{
    let ghost m0 = cache.model();
    let entries = cache.entries();
    let mut notes: Vec<Notification> = Vec::new();
    let mut idx: usize = 0;
    while idx < entries.len()
        invariant
            cache.wf(),
            cache.capacity() == old(cache).capacity(),
            m0 == old(cache).model(),
            entries@.len() == m0.len(),
            forall|i: int|
                0 <= i < entries@.len() ==> ((#[trigger] entries@[i]).0@, entries@[i].1) == m0[i],
            0 <= idx <= entries@.len(),
            cache.model().len() == m0.len(),
            forall|i: int|
                0 <= i < idx ==> (#[trigger] cache.model()[i]).0 == m0[i].0
                    && cache.model()[i].1 == eval_record(m0[i].1, flap_interval),
            forall|i: int| idx <= i < m0.len() ==> #[trigger] cache.model()[i] == m0[i],
            notes@.map_values(|n: Notification| (n.fingerprint@, n.last_update)) == sweep_notes(
                m0.take(idx as int),
                flap_interval,
            ),
        decreases entries@.len() - idx,
    {
        let ghost mc = cache.model();
        let fp: &String = &entries[idx].0;
        let rec: ErrorInfo = entries[idx].1;
        let (new_rec, fire) = evaluate_record(rec, flap_interval);
        proof {
            assert(mc[idx as int] == m0[idx as int]);
            assert(mc[idx as int].0 == fp@);
            lemma_key_index_of(mc, fp@, idx as int);
        }
        cache.set_record(fp.as_str(), new_rec);
        proof {
            let md = set_model(mc, fp@, new_rec);
            assert(cache.model() == md);
            assert(md == mc.update(idx as int, (fp@, new_rec)));
        }
        if fire {
            notes.push(Notification { fingerprint: fp.clone(), last_update: new_rec.last_update });
        }
        proof {
            let t1 = m0.take(idx + 1);
            assert(t1.drop_last() =~= m0.take(idx as int));
            assert(t1.last() == m0[idx as int]);
            assert(notes@.map_values(|n: Notification| (n.fingerprint@, n.last_update))
                =~= sweep_notes(t1, flap_interval));
        }
        idx += 1;
    }
    proof {
        assert(m0.take(m0.len() as int) =~= m0);
    }
    notes
}

} // verus!
