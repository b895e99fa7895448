use logalert::config::interval_to_millis;
use logalert::config::read_log_properties;
use logalert::config::Config;
use logalert::config::Container;
use logalert::config::PropsError;

fn lines(v: &[&str]) -> Vec<String> {
    v.iter().map(|s| s.to_string()).collect()
}

#[test]
fn props_basic() {
    let input = lines(&[
        "# a comment line",
        "log4j.appender.LOGFILE.File=/var/log/app/server.log",
        "log4j.appender.LOGFILE.MaxFileSize=10MB",
        "some.other.key=whatever",
    ]);
    let loc = read_log_properties(&input).unwrap();
    assert_eq!(loc.log_path, "/var/log/app/server.log");
    assert_eq!(loc.max_log_size, 10_000_000);
}

#[test]
fn props_defaults_when_keys_absent() {
    let loc = read_log_properties(&lines(&["a=b", "# c"])).unwrap();
    assert_eq!(loc.log_path, "");
    assert_eq!(loc.max_log_size, 0);
}

#[test]
fn props_comment_lines_are_skipped() {
    let input = lines(&[
        "#log4j.appender.LOGFILE.File=/ignored.log",
        "log4j.appender.LOGFILE.File=/kept.log",
    ]);
    let loc = read_log_properties(&input).unwrap();
    assert_eq!(loc.log_path, "/kept.log");
}

#[test]
fn props_missing_separator() {
    let input = lines(&["stuff log4j.appender.LOGFILE.File stuff"]);
    assert_eq!(
        read_log_properties(&input).unwrap_err(),
        PropsError::MissingSeparator
    );
}

#[test]
fn props_bad_size_not_a_number() {
    let input = lines(&["log4j.appender.LOGFILE.MaxFileSize=tenMB"]);
    assert_eq!(
        read_log_properties(&input).unwrap_err(),
        PropsError::BadMaxSize
    );
}

#[test]
fn props_bad_size_too_short() {
    let input = lines(&["log4j.appender.LOGFILE.MaxFileSize=M"]);
    assert_eq!(
        read_log_properties(&input).unwrap_err(),
        PropsError::BadMaxSize
    );
}

#[test]
fn props_bad_size_overflow() {
    let input = lines(&["log4j.appender.LOGFILE.MaxFileSize=99999999999999999999MB"]);
    assert_eq!(
        read_log_properties(&input).unwrap_err(),
        PropsError::BadMaxSize
    );
}

#[test]
fn props_largest_size_that_fits() {
    let input = lines(&["log4j.appender.LOGFILE.MaxFileSize=18446744073709MB"]);
    let loc = read_log_properties(&input).unwrap();
    assert_eq!(loc.max_log_size, 18_446_744_073_709_000_000);
    let over = lines(&["log4j.appender.LOGFILE.MaxFileSize=18446744073710MB"]);
    assert_eq!(
        read_log_properties(&over).unwrap_err(),
        PropsError::BadMaxSize
    );
}

#[test]
fn props_value_stops_at_second_equals() {
    let input = lines(&["log4j.appender.LOGFILE.File=/a/b.log=tail"]);
    let loc = read_log_properties(&input).unwrap();
    assert_eq!(loc.log_path, "/a/b.log");
}

#[test]
fn props_later_line_wins() {
    let input = lines(&[
        "log4j.appender.LOGFILE.File=/first.log",
        "log4j.appender.LOGFILE.File=/second.log",
        "log4j.appender.LOGFILE.MaxFileSize=1MB",
        "log4j.appender.LOGFILE.MaxFileSize=2MB",
    ]);
    let loc = read_log_properties(&input).unwrap();
    assert_eq!(loc.log_path, "/second.log");
    assert_eq!(loc.max_log_size, 2_000_000);
}

#[test]
fn interval_conversion() {
    assert_eq!(interval_to_millis(0), Some(0));
    assert_eq!(interval_to_millis(1), Some(60_000));
    assert_eq!(interval_to_millis(10), Some(600_000));
    assert_eq!(interval_to_millis(-1), None);
    assert_eq!(interval_to_millis(i64::MAX), None);
}

#[test]
fn config_records_carry_through() {
    let container = Container {
        alias: "svc".to_string(),
        name: "Service".to_string(),
        install_dir: "/opt/svc".to_string(),
        properties_file: "log4j.properties".to_string(),
        src_email: "alerts@example.org".to_string(),
        email_list: vec!["ops@example.org".to_string()],
        notify_interval: 5,
        flap_interval: 10,
        cache_size: 100,
        enabled: true,
    };
    let config = Config {
        containers: vec![container],
    };
    assert_eq!(config.containers.len(), 1);
    assert_eq!(config.containers[0].alias, "svc");
    assert!(config.containers[0].enabled);
    assert_eq!(config.containers[0].cache_size, 100);
}
