use logalert::cache::ErrorFingerprintCache;

#[test]
fn upsert_creates_then_updates() {
    let mut cache = ErrorFingerprintCache::new(10);
    let (rec, is_new) = cache.upsert("disk full", 1_000);
    assert!(is_new);
    assert_eq!(rec.last_update, 1_000);
    assert_eq!(rec.update_period, 0);
    assert!(!rec.email_sent);

    let (rec2, is_new2) = cache.upsert("disk full", 4_500);
    assert!(!is_new2);
    assert_eq!(rec2.last_update, 4_500);
    assert_eq!(rec2.update_period, 3_500);
    assert!(!rec2.email_sent);
    assert_eq!(cache.len(), 1);
}

#[test]
fn dedup_two_sightings_one_record() {
    let mut cache = ErrorFingerprintCache::new(10);
    cache.upsert("same message", 0);
    cache.upsert("same message", 2_000);
    assert_eq!(cache.len(), 1);
    let rec = cache.peek("same message").unwrap();
    assert_eq!(rec.last_update, 2_000);
    assert_eq!(rec.update_period, 2_000);
}

#[test]
fn lru_bound_evicts_least_recently_used() {
    let mut cache = ErrorFingerprintCache::new(3);
    cache.upsert("first", 1);
    cache.upsert("second", 2);
    cache.upsert("third", 3);
    assert_eq!(cache.len(), 3);
    cache.upsert("fourth", 4);
    assert_eq!(cache.len(), 3);
    assert!(cache.peek("first").is_none());
    assert!(cache.peek("second").is_some());
    assert!(cache.peek("third").is_some());
    assert!(cache.peek("fourth").is_some());
}

#[test]
fn upsert_promotes_to_most_recently_used() {
    let mut cache = ErrorFingerprintCache::new(2);
    cache.upsert("a", 1);
    cache.upsert("b", 2);
    cache.upsert("a", 3);
    cache.upsert("c", 4);
    assert_eq!(cache.len(), 2);
    assert!(cache.peek("b").is_none());
    assert!(cache.peek("a").is_some());
    assert!(cache.peek("c").is_some());
}

#[test]
fn entries_are_most_recently_used_first() {
    let mut cache = ErrorFingerprintCache::new(5);
    cache.upsert("x", 1);
    cache.upsert("y", 2);
    cache.upsert("z", 3);
    let entries = cache.entries();
    let keys: Vec<&str> = entries.iter().map(|e| e.0.as_str()).collect();
    assert_eq!(keys, vec!["z", "y", "x"]);
}

#[test]
fn peek_does_not_promote() {
    let mut cache = ErrorFingerprintCache::new(2);
    cache.upsert("a", 1);
    cache.upsert("b", 2);
    cache.peek("a");
    cache.upsert("c", 3);
    assert!(cache.peek("a").is_none(), "a stayed least recently used");
}

#[test]
fn set_record_changes_value_not_order() {
    let mut cache = ErrorFingerprintCache::new(3);
    cache.upsert("a", 1);
    cache.upsert("b", 2);
    let mut rec = cache.peek("a").unwrap();
    rec.email_sent = true;
    cache.set_record("a", rec);
    assert!(cache.peek("a").unwrap().email_sent);
    let entries = cache.entries();
    assert_eq!(entries[0].0, "b");
    assert_eq!(entries[1].0, "a");
    cache.upsert("c", 3);
    cache.upsert("d", 4);
    assert!(cache.peek("a").is_none(), "a was still the eviction victim");
}
