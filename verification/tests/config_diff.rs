use arc_gateway::config_diff::{json_equal, shorten_text, summarize_config_diff, summarize_json_diff, Json};

#[test]
fn summarize_config_diff_reports_nested_path() {
    let old_raw = r#"{"routes":[{"limits":{"max_request_body_bytes":10485760}}]}"#;
    let new_raw = r#"{"routes":[{"limits":{"max_request_body_bytes":20971520}}]}"#;
    let diff = summarize_config_diff(old_raw, new_raw, 8).unwrap();
    assert!(diff.iter().any(|line| line.contains("routes[0].limits.max_request_body_bytes")));
}

#[test]
fn summarize_config_diff_truncates_by_limit() {
    let old_raw = r#"{"a":1,"b":1,"c":1}"#;
    let new_raw = r#"{"a":2,"b":2,"c":2}"#;
    let diff = summarize_config_diff(old_raw, new_raw, 2).unwrap();
    assert!(!diff.is_empty());
    assert!(diff.len() <= 2);
}

#[test]
fn diff_lines_are_exact() {
    let old_raw = r#"{"a":1,"b":"x","c":[1,2],"d":{"e":true},"z":null}"#;
    let new_raw = r#"{"a":1,"b":"y","c":[1,3,4],"d":{"e":false,"f":null},"g":[]}"#;
    let diff = summarize_config_diff(old_raw, new_raw, 10).unwrap();
    assert_eq!(
        diff,
        vec![
            "b: \"x\" -> \"y\"".to_string(),
            "c: <len:2> -> <len:3>".to_string(),
            "c[1]: 2 -> 3".to_string(),
            "d.e: true -> false".to_string(),
            "g: null -> []".to_string(),
        ]
    );
    assert_eq!(summarize_config_diff(old_raw, old_raw, 10).unwrap(), Vec::<String>::new());
    assert_eq!(summarize_config_diff("1", "2", 0).unwrap(), vec!["<root>: 1 -> 2".to_string()]);
    assert_eq!(summarize_config_diff("{", "{}", 3).unwrap(), vec!["<old_config_parse_failed>".to_string()]);
    assert_eq!(summarize_config_diff("{}", "[", 3).unwrap(), vec!["<new_config_parse_failed>".to_string()]);
    assert_eq!(
        summarize_config_diff(r#"{"a":{"b":1}}"#, r#"{"a":[1]}"#, 3).unwrap(),
        vec!["a: {\"b\":1} -> [1]".to_string()]
    );
}

#[test]
fn long_values_are_cut() {
    let long = "x".repeat(200);
    let old_raw = format!("{{\"k\":\"{long}\"}}");
    let diff = summarize_config_diff(&old_raw, r#"{"k":1}"#, 4).unwrap();
    let expected_old = format!("\"{}...", "x".repeat(116));
    assert_eq!(diff, vec![format!("k: {expected_old} -> 1")]);

    assert_eq!(shorten_text("short".to_string()), Some("short".to_string()));
    // 116 one-byte characters, then a two-byte one across byte 117.
    let across = format!("{}é{}", "a".repeat(116), "b".repeat(10));
    assert_eq!(shorten_text(across), None);
    let at = format!("{}é{}", "a".repeat(115), "b".repeat(10));
    assert_eq!(shorten_text(at), Some(format!("{}é...", "a".repeat(115))));
}

#[test]
fn json_values_compare_structurally() {
    let a = Json::Array(vec![Json::Number("1".to_string()), Json::Null], "[1,null]".to_string());
    let b = Json::Array(vec![Json::Number("1".to_string()), Json::Null], "[1,null]".to_string());
    let c = Json::Array(vec![Json::Number("1.0".to_string()), Json::Null], "[1.0,null]".to_string());
    assert!(json_equal(&a, &b));
    assert!(!json_equal(&a, &c));
    let lines = summarize_json_diff(&a, &c, 5).unwrap();
    assert_eq!(lines, vec!["[0]: 1 -> 1.0".to_string()]);
}
