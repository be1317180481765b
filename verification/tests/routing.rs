use arc_gateway::h2_hpack::Header;
use arc_gateway::route_match::{
    h2_header_value, host_matches_any, host_without_port, http1_header_value, query_param_value,
    route_matches_http1, strip_query, trim_trailing_dot, Route, RouteAction, RouteMatcher,
};
use arc_gateway::ascii::trim_ascii_ws;
use arc_gateway::route_select::{select_route_h2, select_route_http1, RouteSelectError};
use arc_gateway::router::Router;

#[test]
fn candidates_include_all_prefix_nodes() {
    let mut r = Router::new();
    r.insert_prefix(b"/", 1);
    r.insert_prefix(b"/foo", 2);
    r.insert_prefix(b"/foo/bar", 3);

    let got = r.for_each_candidate(b"/foo/bar/baz");
    assert_eq!(got, vec![1, 2, 3]);
}

#[test]
fn router_at_gives_first_candidate_and_dedups() {
    let mut r = Router::new();
    assert_eq!(r.at(b"/x"), None);
    r.insert_prefix(b"/a", 4);
    r.insert_prefix(b"/a", 4);
    r.insert_prefix(b"/a", 5);
    r.insert_prefix(b"", 9);
    assert_eq!(r.for_each_candidate(b"/a/b"), vec![9, 4, 5]);
    assert_eq!(r.at(b"/a"), Some(9));
    assert_eq!(r.for_each_candidate(b"/b"), vec![9]);
}

fn s(b: &[u8]) -> Vec<u8> {
    b.to_vec()
}

#[test]
fn helpers_trim_and_split() {
    assert_eq!(strip_query(b"/p?x=1"), b"/p");
    assert_eq!(strip_query(b"/p"), b"/p");
    assert_eq!(trim_ascii_ws(b" \t a b \r\n"), b"a b");
    assert_eq!(trim_trailing_dot(b"example.com.."), b"example.com");
    assert_eq!(host_without_port(b" example.com:8080 "), b"example.com");
    assert_eq!(host_without_port(b"[::1]:443"), b"::1");
    assert_eq!(host_without_port(b"[]"), b"[]");
}

#[test]
fn host_patterns() {
    let pats = vec![s(b"*.example.com"), s(b"api.test.")];
    assert!(host_matches_any(b"www.Example.com", &pats));
    assert!(!host_matches_any(b"example.com", &pats));
    assert!(host_matches_any(b"API.test", &pats));
    assert!(!host_matches_any(b"", &vec![s(b"*")]));
    assert!(host_matches_any(b"anything", &vec![s(b"*")]));
}

#[test]
fn header_and_query_lookup() {
    let head = b"GET /x HTTP/1.1\r\nHost: a.com\r\nX-Id:  42 \r\n\r\nX-After: no\r\n";
    assert_eq!(http1_header_value(head, b"x-id"), Some(&b"42"[..]));
    assert_eq!(http1_header_value(head, b"host"), Some(&b"a.com"[..]));
    assert_eq!(http1_header_value(head, b"x-after"), None);
    assert_eq!(query_param_value(b"/p?a=1&b&c=3", b"b"), Some(&b""[..]));
    assert_eq!(query_param_value(b"/p?a=1&b&c=3", b"c"), Some(&b"3"[..]));
    assert_eq!(query_param_value(b"/p?a=1", b"z"), None);
    assert_eq!(query_param_value(b"/p", b"a"), None);
    let hs = vec![Header { name: s(b"X-A"), value: s(b"v") }];
    assert_eq!(h2_header_value(&hs, b"x-a"), Some(&b"v"[..]));
    assert_eq!(h2_header_value(&hs, b"x-b"), None);
}

fn route(path: &[u8], priority: i32, matchers: Vec<RouteMatcher>) -> Route {
    Route { path: s(path), priority, matchers, action: RouteAction::Forward, upstream_id: 0, plugin_ids: vec![] }
}

#[test]
fn select_prefers_priority_then_specificity() {
    let routes = vec![
        route(b"/", 0, vec![]),
        route(b"/api", 0, vec![]),
        route(b"/api", 5, vec![RouteMatcher::Method { methods: vec![s(b"POST")] }]),
    ];
    let mut r = Router::new();
    for (i, rt) in routes.iter().enumerate() {
        r.insert_prefix(&rt.path, i as u32);
    }
    let head = b"GET /api/x HTTP/1.1\r\nHost: h\r\n\r\n";
    assert_eq!(select_route_http1(&r, &routes, b"GET", b"/api/x", head, None, false), Ok(1));
    assert_eq!(select_route_http1(&r, &routes, b"POST", b"/api/x", head, None, false), Ok(2));
    assert_eq!(select_route_http1(&r, &routes, b"GET", b"/other", head, None, false), Ok(0));
}

#[test]
fn select_reports_not_found_and_ambiguous() {
    let routes = vec![route(b"/a", 1, vec![RouteMatcher::Tls { enabled: true }]), route(b"/a", 1, vec![RouteMatcher::H2 { enabled: true }])];
    let mut r = Router::new();
    r.insert_prefix(b"/a", 0);
    r.insert_prefix(b"/a", 1);
    let head = b"GET /a HTTP/1.1\r\n\r\n";
    assert_eq!(select_route_http1(&r, &routes, b"GET", b"/a", head, None, false), Err(RouteSelectError::NotFound));
    assert_eq!(select_route_h2(&r, &routes, b"GET", b"/a", None, &[], None, true), Err(RouteSelectError::Ambiguous));
    assert_eq!(select_route_h2(&r, &routes, b"GET", b"/a", None, &[], None, false), Ok(1));
}

#[test]
fn host_matcher_uses_host_then_sni() {
    let routes = vec![route(b"/", 0, vec![RouteMatcher::Host { hosts: vec![s(b"a.com")] }])];
    let mut r = Router::new();
    r.insert_prefix(b"/", 0);
    let with_host = b"GET / HTTP/1.1\r\nHost: A.com:8080\r\n\r\n";
    assert_eq!(select_route_http1(&r, &routes, b"GET", b"/", with_host, None, false), Ok(0));
    let no_host = b"GET / HTTP/1.1\r\n\r\n";
    assert_eq!(select_route_http1(&r, &routes, b"GET", b"/", no_host, Some(b"a.com"), true), Ok(0));
    assert_eq!(select_route_http1(&r, &routes, b"GET", b"/", no_host, None, true), Err(RouteSelectError::NotFound));
    assert!(route_matches_http1(&routes[0], b"GET", b"/", with_host, Some(b"a.com"), None, false));
}

#[test]
fn a_prefix_route_reaches_every_longer_path_and_nothing_else() {
    let mut r = arc_gateway::router::Router::new();
    r.insert_prefix(b"/", 1);
    let before_bar = r.for_each_candidate(b"/bar");
    r.insert_prefix(b"/foo", 7);
    assert_eq!(r.for_each_candidate(b"/foobar"), vec![1, 7]);
    assert_eq!(r.for_each_candidate(b"/foo/x"), vec![1, 7]);
    assert_eq!(r.for_each_candidate(b"/fo"), vec![1]);
    assert_eq!(r.for_each_candidate(b"/bar"), before_bar);
    r.insert_prefix(b"/foo", 7);
    assert_eq!(r.for_each_candidate(b"/foobar"), vec![1, 7]);
}
