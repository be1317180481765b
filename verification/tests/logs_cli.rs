use arc_gateway::logs_cli::{
    cutoff_nanos, match_status, matches_filters, parse_duration, passes_cutoff, split_num_unit, timestamp_fields,
    unix_nanos, LogFields, LogFilters, TimestampFields,
};

fn fields() -> LogFields {
    LogFields {
        level: "info".to_string(),
        route: "api".to_string(),
        trace_id: "t1".to_string(),
        client_ip: "10.0.0.1".to_string(),
        upstream: "u1".to_string(),
        status: Some(503),
    }
}

fn no_filters() -> LogFilters {
    LogFilters { level: None, route: None, status: None, trace_id: None, client_ip: None, upstream: None }
}

#[test]
fn durations_in_each_unit() {
    assert_eq!(parse_duration("500ms"), Some(500_000_000));
    assert_eq!(parse_duration(" 30s "), Some(30_000_000_000));
    assert_eq!(parse_duration("5m"), Some(300_000_000_000));
    assert_eq!(parse_duration("2h"), Some(7_200_000_000_000));
    assert_eq!(parse_duration("7"), Some(7_000_000_000));
    assert_eq!(parse_duration("0"), Some(0));
    assert_eq!(parse_duration(""), None);
    assert_eq!(parse_duration("5d"), None);
    assert_eq!(parse_duration("ms"), None);
    assert_eq!(split_num_unit("15m"), Some(("15", "m")));
    assert_eq!(split_num_unit("15"), Some(("15", "s")));
}

#[test]
fn status_patterns() {
    assert!(match_status(Some(503), "5xx"));
    assert!(!match_status(Some(404), "5xx"));
    assert!(match_status(Some(404), " 404 "));
    assert!(!match_status(Some(404), "6xx"));
    assert!(!match_status(None, "5xx"));
}

#[test]
fn filters_must_all_match() {
    assert!(matches_filters(&fields(), &no_filters()));
    let mut f = no_filters();
    f.level = Some("info".to_string());
    f.status = Some("5xx".to_string());
    assert!(matches_filters(&fields(), &f));
    f.route = Some("web".to_string());
    assert!(!matches_filters(&fields(), &f));
}

#[test]
fn cutoff_keeps_unreadable_and_recent_lines() {
    assert!(passes_cutoff(Some(5), None));
    assert!(passes_cutoff(None, Some(10)));
    assert!(passes_cutoff(Some(10), Some(10)));
    assert!(!passes_cutoff(Some(9), Some(10)));
    assert_eq!(cutoff_nanos(100, 30), 70);
    assert_eq!(cutoff_nanos(i128::MIN + 5, 30), i128::MIN);
}

#[test]
fn timestamps_are_read_field_by_field() {
    let f = timestamp_fields("2024-03-05T06:07:08.123456789Z").expect("fields");
    assert_eq!(
        f,
        TimestampFields { year: 2024, mon: 3, day: 5, hour: 6, min: 7, sec: 8, nanos: 123_456_789 }
    );
    // Another fraction length does not count.
    assert_eq!(timestamp_fields("2024-03-05T06:07:08.1234Z").unwrap().nanos, 0);
    assert_eq!(timestamp_fields("2024-03-05T06:07:08Z extra").unwrap().nanos, 0);
    assert!(timestamp_fields("2024-03-05").is_none());
    assert!(timestamp_fields("20x4-03-05T06:07:08.123456789Z").is_none());
    assert_eq!(timestamp_fields("+024-03-05T06:07:08.000000001Z").unwrap().year, 24);
    assert_eq!(unix_nanos(-1, 0), None);
    assert_eq!(unix_nanos(2, 5), Some(2_000_000_005));
}
