use logalert::cache::ErrorFingerprintCache;
use logalert::tailer::default_severities;
use logalert::tailer::process_line;
use logalert::tailer::split_whitespace_fields;
use logalert::tailer::LineOutcome;
use logalert::tailer::Tailer;

#[test]
fn split_fields_on_whitespace() {
    let fields = split_whitespace_fields("2020-01-01 00:00:00 ERROR disk full");
    assert_eq!(fields, vec!["2020-01-01", "00:00:00", "ERROR", "disk", "full"]);
}

#[test]
fn split_fields_collapses_runs_and_trims() {
    let fields = split_whitespace_fields("  a\t\tb  c \n");
    assert_eq!(fields, vec!["a", "b", "c"]);
    assert_eq!(split_whitespace_fields(""), Vec::<String>::new());
    assert_eq!(split_whitespace_fields(" \t "), Vec::<String>::new());
}

#[test]
fn qualifying_line_is_recorded_with_parsed_time() {
    let severities = default_severities();
    let mut cache = ErrorFingerprintCache::new(100);
    let out = process_line(
        "2020-01-01 00:00:00 ERROR disk full",
        &severities,
        &mut cache,
    );
    match out {
        LineOutcome::Recorded { record, is_new } => {
            assert!(is_new);
            // 2020-01-01 00:00:00 is 1577836800 seconds after the epoch.
            assert_eq!(record.last_update, 1_577_836_800_000);
            assert_eq!(record.update_period, 0);
            assert!(!record.email_sent);
        }
        other => panic!("expected a recorded line, got {:?}", other),
    }
    assert_eq!(cache.len(), 1);
    assert!(cache.peek("disk full").is_some());
}

#[test]
fn fractional_seconds_are_kept() {
    let severities = default_severities();
    let mut cache = ErrorFingerprintCache::new(100);
    process_line(
        "2020-01-01 00:00:00.500 WARN slow response",
        &severities,
        &mut cache,
    );
    let rec = cache.peek("slow response").unwrap();
    assert_eq!(rec.last_update, 1_577_836_800_500);
}

#[test]
fn too_few_fields_do_not_qualify() {
    let severities = default_severities();
    let mut cache = ErrorFingerprintCache::new(100);
    let out = process_line("2020-01-01 00:00:00 ERROR", &severities, &mut cache);
    assert_eq!(out, LineOutcome::NotQualifying);
    assert_eq!(cache.len(), 0);
}

#[test]
fn uninteresting_severity_does_not_qualify() {
    let severities = default_severities();
    let mut cache = ErrorFingerprintCache::new(100);
    let out = process_line(
        "2020-01-01 00:00:00 INFO all is well",
        &severities,
        &mut cache,
    );
    assert_eq!(out, LineOutcome::NotQualifying);
    assert_eq!(cache.len(), 0);
}

#[test]
fn severity_set_is_configurable() {
    let severities = vec!["DEBUG".to_string()];
    let mut cache = ErrorFingerprintCache::new(100);
    let out = process_line(
        "2020-01-01 00:00:00 DEBUG odd state",
        &severities,
        &mut cache,
    );
    assert!(matches!(out, LineOutcome::Recorded { .. }));
    let out2 = process_line(
        "2020-01-01 00:00:01 ERROR not watched",
        &severities,
        &mut cache,
    );
    assert_eq!(out2, LineOutcome::NotQualifying);
}

#[test]
fn unparsable_timestamp_is_reported() {
    let severities = default_severities();
    let mut cache = ErrorFingerprintCache::new(100);
    let out = process_line("today midnight ERROR disk full", &severities, &mut cache);
    assert_eq!(out, LineOutcome::BadTimestamp);
    assert_eq!(cache.len(), 0);
}

#[test]
fn fingerprint_joins_trailing_fields_with_single_spaces() {
    let severities = default_severities();
    let mut cache = ErrorFingerprintCache::new(100);
    process_line(
        "2020-01-01 00:00:00 ERROR disk\t\tfull  again",
        &severities,
        &mut cache,
    );
    assert!(cache.peek("disk full again").is_some());
}

#[test]
fn rotation_on_truncation_reseeks_to_start() {
    let mut tailer = Tailer::new(100, 10_000_000);
    assert_eq!(tailer.offset, 100);
    let reseek = tailer.check_rotation(0, false);
    assert!(reseek, "file shrank below the held offset");
    assert_eq!(tailer.offset, 0);
    tailer.advance(40);
    assert_eq!(tailer.offset, 40);
    let again = tailer.check_rotation(40, false);
    assert!(!again);
    assert_eq!(tailer.offset, 40);
}

#[test]
fn rotation_on_close_at_max_size() {
    let mut tailer = Tailer::new(0, 1_000_000);
    tailer.advance(900_000);
    assert!(!tailer.check_rotation(900_000, true), "below the maximum");
    assert!(!tailer.check_rotation(1_000_000, false), "no close seen");
    assert!(tailer.check_rotation(1_000_000, true));
    assert_eq!(tailer.offset, 0);
}
