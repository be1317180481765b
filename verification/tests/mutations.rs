use arc_gateway::forward_policies::RewriteRule;
use arc_gateway::mutations::rewrite_path;

fn rule(pattern: &str, replace: &str) -> RewriteRule {
    RewriteRule { pattern: pattern.to_string(), replace: replace.to_string() }
}

#[test]
fn rewrite_replaces_the_first_match() {
    let r = rule(r"^/api/(v\d)/", "/$1/");
    assert_eq!(rewrite_path("/api/v1/users", &r).unwrap(), Some("/v1/users".to_string()));
    assert_eq!(rewrite_path("/web/x", &r).unwrap(), None);
    let twice = rule("a", "b");
    assert_eq!(rewrite_path("/aa", &twice).unwrap(), Some("/ba".to_string()));
}

#[test]
fn rewrite_with_a_bad_pattern_is_a_config_error() {
    let err = rewrite_path("/x", &rule("(", "y")).unwrap_err();
    assert!(matches!(err, arc_gateway::arc_error::ArcError::Config { .. }));
}

use arc_gateway::forward_policies::HeaderMutation;
use arc_gateway::mutations::{apply_header_mutations, apply_header_mutations_with_room, HEADER_KEY_LIMIT};

fn add(name: &str, value: &str) -> HeaderMutation {
    HeaderMutation::Add { name: name.to_string(), value: value.to_string() }
}

fn set(name: &str, value: &str) -> HeaderMutation {
    HeaderMutation::Replace { name: name.to_string(), value: value.to_string() }
}

fn remove(name: &str) -> HeaderMutation {
    HeaderMutation::Remove { name: name.to_string() }
}

fn values(h: &http::HeaderMap, name: &str) -> Vec<String> {
    h.get_all(name).iter().map(|v| v.to_str().unwrap().to_string()).collect()
}

#[test]
fn add_appends_set_replaces_remove_drops() {
    let mut h = http::HeaderMap::new();
    h.insert("x-a", http::HeaderValue::from_static("1"));
    h.insert("x-gone", http::HeaderValue::from_static("z"));
    let muts = vec![add("X-A", "2"), set("x-b", "old"), add("x-b", "more"), set("X-B", "new"), remove("X-Gone")];
    apply_header_mutations(&mut h, &muts).unwrap();
    assert_eq!(values(&h, "x-a"), vec!["1", "2"]);
    assert_eq!(values(&h, "x-b"), vec!["new"]);
    assert!(h.get("x-gone").is_none());
    assert_eq!(h.keys_len(), 2);
}

#[test]
fn a_bad_name_stops_after_the_earlier_mutations() {
    let mut h = http::HeaderMap::new();
    let muts = vec![add("x-first", "1"), add("bad name", "v"), add("x-later", "3")];
    let err = apply_header_mutations(&mut h, &muts).unwrap_err();
    assert!(matches!(err, arc_gateway::arc_error::ArcError::Config { .. }));
    assert_eq!(values(&h, "x-first"), vec!["1"]);
    assert!(h.get("x-later").is_none());
}

#[test]
fn a_bad_value_is_a_config_error() {
    let mut h = http::HeaderMap::new();
    h.insert("x-keep", http::HeaderValue::from_static("k"));
    let err = apply_header_mutations(&mut h, &[set("x-keep", "line\nbreak")]).unwrap_err();
    assert!(matches!(err, arc_gateway::arc_error::ArcError::Config { .. }));
    assert_eq!(values(&h, "x-keep"), vec!["k"]);
    // a removal needs no value, and tabs and non-ASCII text are accepted
    apply_header_mutations(&mut h, &[add("x-tab", "a\tb"), add("x-utf", "caf\u{e9}"), remove("x-keep")]).unwrap();
    assert_eq!(h.get("x-tab").unwrap().as_bytes(), b"a\tb");
    assert_eq!(h.get("x-utf").unwrap().as_bytes(), "caf\u{e9}".as_bytes());
    assert!(h.get("x-keep").is_none());
}

#[test]
fn changes_beyond_the_room_are_not_applied() {
    let mut h = http::HeaderMap::new();
    let many: Vec<HeaderMutation> = (0..HEADER_KEY_LIMIT + 1).map(|i| add(&format!("x-{i}"), "v")).collect();
    assert!(apply_header_mutations_with_room(&mut h, &many).is_none());
    assert!(h.is_empty());
    let r = apply_header_mutations_with_room(&mut h, &many[..3]).unwrap();
    assert!(r.is_ok());
    assert_eq!(h.keys_len(), 3);
}
