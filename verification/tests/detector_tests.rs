use logalert::cache::ErrorFingerprintCache;
use logalert::detector::evaluate_record;
use logalert::detector::sweep;
use logalert::tailer::default_severities;
use logalert::tailer::process_line;

#[test]
fn scenario_slow_recurrence_never_notifies() {
    // One service, flap interval 10 s, cache for 100 fingerprints; the same
    // error at t = 0 s, 3 s and 12 s. The period peaks at 9 s < 10 s, so the
    // flap threshold is never reached and nothing fires.
    let severities = default_severities();
    let mut cache = ErrorFingerprintCache::new(100);
    process_line("2020-01-01 00:00:00 ERROR same-message", &severities, &mut cache);
    let rec = cache.peek("same-message").unwrap();
    assert_eq!(rec.update_period, 0);
    process_line("2020-01-01 00:00:03 ERROR same-message", &severities, &mut cache);
    let rec = cache.peek("same-message").unwrap();
    assert_eq!(rec.update_period, 3_000);
    process_line("2020-01-01 00:00:12 ERROR same-message", &severities, &mut cache);
    let rec = cache.peek("same-message").unwrap();
    assert_eq!(rec.update_period, 9_000);
    assert_eq!(cache.len(), 1);

    let notes = sweep(&mut cache, 10_000);
    assert!(notes.is_empty());
    assert!(!cache.peek("same-message").unwrap().email_sent);
}

#[test]
fn scenario_lower_threshold_fires_exactly_once() {
    // The same three lines with flap interval 5 s: the t = 12 s evaluation
    // sees a 9 s period, arms the record and fires exactly once; the next
    // sweep stays silent (debounce).
    let severities = default_severities();
    let mut cache = ErrorFingerprintCache::new(100);
    process_line("2020-01-01 00:00:00 ERROR same-message", &severities, &mut cache);
    process_line("2020-01-01 00:00:03 ERROR same-message", &severities, &mut cache);
    process_line("2020-01-01 00:00:12 ERROR same-message", &severities, &mut cache);

    let notes = sweep(&mut cache, 5_000);
    assert_eq!(notes.len(), 1);
    assert_eq!(notes[0].fingerprint, "same-message");
    assert_eq!(notes[0].last_update, 1_577_836_812_000);
    assert!(cache.peek("same-message").unwrap().email_sent);

    let notes2 = sweep(&mut cache, 5_000);
    assert!(notes2.is_empty(), "one notification per episode, not per sweep");
    assert!(!cache.peek("same-message").unwrap().email_sent);
}

#[test]
fn rearm_after_episode_ends_and_resumes() {
    let severities = default_severities();
    let mut cache = ErrorFingerprintCache::new(100);
    process_line("2020-01-01 00:00:00 ERROR same-message", &severities, &mut cache);
    process_line("2020-01-01 00:00:09 ERROR same-message", &severities, &mut cache);

    // First episode: period 9 s >= 5 s arms and fires once, then disarms.
    assert_eq!(sweep(&mut cache, 5_000).len(), 1);
    assert_eq!(sweep(&mut cache, 5_000).len(), 0);

    // The error goes quiet, then resumes after 60 s: a fresh notification.
    process_line("2020-01-01 00:01:09 ERROR same-message", &severities, &mut cache);
    let notes = sweep(&mut cache, 5_000);
    assert_eq!(notes.len(), 1);
    assert_eq!(notes[0].last_update, 1_577_836_869_000);
}

#[test]
fn fast_recurrence_within_window_stays_silent() {
    // An error recurring every 2 s against a 5 s flap interval keeps its
    // period below the threshold: no sweep ever notifies.
    let severities = default_severities();
    let mut cache = ErrorFingerprintCache::new(100);
    process_line("2020-01-01 00:00:00 ERROR busy loop", &severities, &mut cache);
    for s in [2, 4, 6, 8] {
        let line = format!("2020-01-01 00:00:0{} ERROR busy loop", s);
        process_line(&line, &severities, &mut cache);
        assert!(sweep(&mut cache, 5_000).is_empty());
    }
    assert!(!cache.peek("busy loop").unwrap().email_sent);
}

#[test]
fn notes_come_most_recently_used_first() {
    let severities = default_severities();
    let mut cache = ErrorFingerprintCache::new(100);
    process_line("2020-01-01 00:00:00 ERROR alpha", &severities, &mut cache);
    process_line("2020-01-01 00:00:00 ERROR beta", &severities, &mut cache);
    process_line("2020-01-01 00:00:10 ERROR alpha", &severities, &mut cache);
    process_line("2020-01-01 00:00:20 ERROR beta", &severities, &mut cache);
    let notes = sweep(&mut cache, 5_000);
    assert_eq!(notes.len(), 2);
    assert_eq!(notes[0].fingerprint, "beta");
    assert_eq!(notes[1].fingerprint, "alpha");
}

#[test]
fn evaluate_record_toggles_only_at_threshold() {
    let mut cache = ErrorFingerprintCache::new(10);
    let (rec, _) = cache.upsert("e", 0);
    let (after, fired) = evaluate_record(rec, 1);
    assert!(!fired, "a single sighting has period zero");
    assert_eq!(after, rec);

    cache.upsert("e", 7_000);
    let rec = cache.peek("e").unwrap();
    let (armed, fired) = evaluate_record(rec, 5_000);
    assert!(fired);
    assert!(armed.email_sent);
    assert_eq!(armed.last_update, rec.last_update);
    assert_eq!(armed.update_period, rec.update_period);

    let (disarmed, fired_again) = evaluate_record(armed, 5_000);
    assert!(!fired_again, "an armed record is disarmed without a notification");
    assert!(!disarmed.email_sent);
}

#[test]
fn sweep_handles_several_fingerprints() {
    let severities = default_severities();
    let mut cache = ErrorFingerprintCache::new(100);
    process_line("2020-01-01 00:00:00 ERROR alpha", &severities, &mut cache);
    process_line("2020-01-01 00:00:10 ERROR alpha", &severities, &mut cache);
    process_line("2020-01-01 00:00:00 ERROR beta", &severities, &mut cache);
    process_line("2020-01-01 00:00:01 ERROR beta", &severities, &mut cache);
    process_line("2020-01-01 00:00:00 ERROR gamma", &severities, &mut cache);

    let notes = sweep(&mut cache, 5_000);
    assert_eq!(notes.len(), 1, "only the slow-recurring fingerprint fires");
    assert_eq!(notes[0].fingerprint, "alpha");
    assert_eq!(cache.len(), 3);
}
