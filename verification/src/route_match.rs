use vstd::prelude::*;
use crate::ascii::{
    is_ws, lower, ci_eq, pos_from, trim_ws, trim_end_ws, lemma_pos_from, find_byte, trim_ascii_ws,
    eq_ignore_ascii_case, bytes_eq,
};
use crate::h2_hpack::Header;

verus! {

/// The byte strings held by a sequence of vectors.
pub open spec fn byte_strings(v: Seq<Vec<u8>>) -> Seq<Seq<u8>> {
    v.map_values(|x: Vec<u8>| x@)
}

/// `path` up to (not including) its first `?`.
pub open spec fn path_without_query(path: Seq<u8>) -> Seq<u8> {
    path.take(pos_from(path, 0x3Fu8, 0))
}

/// `s` without its trailing dots.
pub open spec fn trim_dots(s: Seq<u8>) -> Seq<u8>
    decreases s.len(),
{
    if s.len() > 0 && s.last() == 0x2Eu8 {
        trim_dots(s.drop_last())
    } else {
        s
    }
}

/// The host part of a `Host` value: trimmed, without `:port`, and for
/// `[v6]:port` the address between the brackets.
pub open spec fn host_no_port(host: Seq<u8>) -> Seq<u8> {
    let h = trim_ws(host);
    if h.len() == 0 {
        h
    } else if h[0] == 0x5Bu8 {
        let end = pos_from(h, 0x5Du8, 0);
        if end < h.len() && end > 1 { h.subrange(1, end) } else { h }
    } else {
        h.take(pos_from(h, 0x3Au8, 0))
    }
}

/// Whether host `h` (trailing dots removed) matches one pattern: `*` matches
/// every host, `*.suffix` every host that ends with `.suffix` and is longer,
/// anything else the same host up to ASCII case (trailing dots of the pattern
/// ignored).
pub open spec fn pattern_matches(h: Seq<u8>, pat: Seq<u8>) -> bool {
    let p = trim_dots(pat);
    if p.len() == 1 && p[0] == 0x2Au8 {
        true
    } else if p.len() >= 2 && p[0] == 0x2Au8 && p[1] == 0x2Eu8 {
        let suf = p.drop_first();
        h.len() > suf.len() && ci_eq(h.skip(h.len() - suf.len()), suf)
    } else {
        ci_eq(h, p)
    }
}

/// Whether a non-empty `host` matches any of `pats`.
pub open spec fn host_matches(host: Seq<u8>, pats: Seq<Seq<u8>>) -> bool {
    host.len() > 0 && exists|k: int| 0 <= k < pats.len() && #[trigger] pattern_matches(trim_dots(host), pats[k])
}

/// The line of `head` that starts at `pos`, without its `\n` and a `\r`
/// before it.
pub open spec fn line_at(head: Seq<u8>, pos: int) -> Seq<u8> {
    let l = head.subrange(pos, pos_from(head, 0x0Au8, pos));
    if l.len() > 0 && l.last() == 0x0Du8 { l.drop_last() } else { l }
}

/// Where the line after the one at `pos` starts.
pub open spec fn next_line(head: Seq<u8>, pos: int) -> int {
    let end = pos_from(head, 0x0Au8, pos);
    if end < head.len() { end + 1 } else { end }
}

/// The value (trimmed) of the first header line named `name` (ASCII case
/// ignored) at or after `pos`; the first line of the block is the request
/// line and an empty line ends the headers.
pub open spec fn h1_value_from(head: Seq<u8>, name: Seq<u8>, pos: int, first: bool) -> Option<Seq<u8>>
    decreases head.len() - pos,
{
    if pos < 0 || pos >= head.len() {
        None
    } else {
        let line = line_at(head, pos);
        let colon = pos_from(line, 0x3Au8, 0);
        proof {
            lemma_next_line(head, pos);
        }
        if first {
            if next_line(head, pos) > pos { h1_value_from(head, name, next_line(head, pos), false) } else { None }
        } else if line.len() == 0 {
            None
        } else if colon < line.len() && ci_eq(line.take(colon), name) {
            Some(trim_ws(line.skip(colon + 1)))
        } else if next_line(head, pos) > pos {
            h1_value_from(head, name, next_line(head, pos), false)
        } else {
            None
        }
    }
}

/// The value of header `name` in an HTTP/1 head block.
pub open spec fn h1_value(head: Seq<u8>, name: Seq<u8>) -> Option<Seq<u8>> {
    h1_value_from(head, name, 0, true)
}

/// The value of query parameter `key` in the `&`-separated pairs from `i`
/// on: `key=value` gives the value, a bare `key` gives an empty value.
pub open spec fn query_from(path: Seq<u8>, key: Seq<u8>, i: int) -> Option<Seq<u8>>
    decreases path.len() + 1 - i,
{
    if i < 0 || i > path.len() {
        None
    } else {
        let j = pos_from(path, 0x26u8, i);
        let pair = path.subrange(i, j);
        let eq = pos_from(pair, 0x3Du8, 0);
        if eq < pair.len() && pair.take(eq) == key {
            Some(pair.skip(eq + 1))
        } else if eq >= pair.len() && pair == key {
            Some(Seq::empty())
        } else if j >= path.len() || j + 1 <= i {
            None
        } else {
            query_from(path, key, j + 1)
        }
    }
}

/// The value of query parameter `key` of `path` (none without a `?`).
pub open spec fn query_value(path: Seq<u8>, key: Seq<u8>) -> Option<Seq<u8>> {
    let q = pos_from(path, 0x3Fu8, 0);
    if q >= path.len() { None } else { query_from(path, key, q + 1) }
}

/// The value of the first header from index `i` on named `name` (ASCII case
/// ignored).
pub open spec fn h2_value_from(hs: Seq<Header>, name: Seq<u8>, i: int) -> Option<Seq<u8>>
    decreases hs.len() - i,
{
    if i < 0 || i >= hs.len() {
        None
    } else if ci_eq(hs[i].name@, name) {
        Some(hs[i].value@)
    } else {
        h2_value_from(hs, name, i + 1)
    }
}

/// The value of the first header named `name`.
pub open spec fn h2_value(hs: Seq<Header>, name: Seq<u8>) -> Option<Seq<u8>> {
    h2_value_from(hs, name, 0)
}

/// `path` without its query string.
pub fn strip_query(path: &[u8]) -> (r: &[u8])
    ensures
        r@ == path_without_query(path@),
{
    let pos = find_byte(path, 0x3Fu8, 0);
    proof {
        lemma_pos_from(path@, 0x3Fu8, 0);
    }
    vstd::slice::slice_subrange(path, 0, pos)
}

/// `s` without its trailing dots.
pub fn trim_trailing_dot(s: &[u8]) -> (r: &[u8])
    ensures
        r@ == trim_dots(s@),
{
    let mut b: usize = s.len();
    proof {
        assert(s@.subrange(0, b as int) =~= s@);
    }
    while b > 0 && s[b - 1] == 0x2Eu8
        invariant
            b <= s@.len(),
            trim_dots(s@) == trim_dots(s@.subrange(0, b as int)),
        decreases b,
    {
        proof {
            assert(s@.subrange(0, b as int).drop_last() =~= s@.subrange(0, b as int - 1));
        }
        b = b - 1;
    }
    vstd::slice::slice_subrange(s, 0, b)
}

/// The host of a `Host` value, without port (and without the brackets of an
/// IPv6 literal).
pub fn host_without_port(host: &[u8]) -> (r: &[u8])
    ensures
        r@ == host_no_port(host@),
{
    let h = trim_ascii_ws(host);
    if h.len() == 0 {
        return h;
    }
    if h[0] == 0x5Bu8 {
        let end = find_byte(h, 0x5Du8, 0);
        proof {
            lemma_pos_from(h@, 0x5Du8, 0);
        }
        if end < h.len() && end > 1 {
            return vstd::slice::slice_subrange(h, 1, end);
        }
        return h;
    }
    let pos = find_byte(h, 0x3Au8, 0);
    proof {
        lemma_pos_from(h@, 0x3Au8, 0);
    }
    vstd::slice::slice_subrange(h, 0, pos)
}

fn pattern_matches_exec(h: &[u8], pat: &[u8]) -> (r: bool)
    ensures
        r == pattern_matches(h@, pat@),
{
    let p = trim_trailing_dot(pat);
    if p.len() == 1 && p[0] == 0x2Au8 {
        return true;
    }
    if p.len() >= 2 && p[0] == 0x2Au8 && p[1] == 0x2Eu8 {
        let suf = vstd::slice::slice_subrange(p, 1, p.len());
        proof {
            assert(suf@ =~= p@.drop_first());
        }
        if h.len() > suf.len() {
            let tail = vstd::slice::slice_subrange(h, h.len() - suf.len(), h.len());
            proof {
                assert(tail@ =~= h@.skip(h@.len() - suf@.len()));
            }
            return eq_ignore_ascii_case(tail, suf);
        }
        return false;
    }
    eq_ignore_ascii_case(h, p)
}

/// Whether `host` is non-empty and matches one of `patterns` (see
/// `pattern_matches`).
pub fn host_matches_any(host: &[u8], patterns: &Vec<Vec<u8>>) -> (r: bool)
    ensures
        r == host_matches(host@, byte_strings(patterns@)),
{
    let ghost pats = byte_strings(patterns@);
    if host.len() == 0 {
        return false;
    }
    let h = trim_trailing_dot(host);
    let mut k: usize = 0;
    while k < patterns.len()
        invariant
            k <= patterns@.len(),
            pats == byte_strings(patterns@),
            h@ == trim_dots(host@),
            host@.len() > 0,
            forall|j: int| 0 <= j < k ==> !#[trigger] pattern_matches(trim_dots(host@), pats[j]),
        decreases patterns@.len() - k,
    {
        if pattern_matches_exec(h, patterns[k].as_slice()) {
            proof {
                assert(pats.len() == patterns@.len());
                assert(pats[k as int] == patterns@[k as int]@);
                assert(pattern_matches(trim_dots(host@), pats[k as int]));
                assert(host@.len() > 0);
                assert(host_matches(host@, pats));
            }
            return true;
        }
        k = k + 1;
    }
    false
}

pub proof fn lemma_next_line(head: Seq<u8>, pos: int)
    requires
        0 <= pos < head.len(),
    ensures
        pos < next_line(head, pos) <= head.len(),
{
    lemma_pos_from(head, 0x0Au8, pos);
}

/// The trimmed value of the first header named `name` (ASCII case ignored)
/// in an HTTP/1 head block: lines after the request line up to the first
/// empty line, each `name: value`.
pub fn http1_header_value<'a>(head_block: &'a [u8], name: &[u8]) -> (r: Option<&'a [u8]>)
    ensures
        r matches Some(v) ==> h1_value(head_block@, name@) == Some(v@),
        r is None ==> h1_value(head_block@, name@) is None,
{
    let ghost head = head_block@;
    let mut pos: usize = 0;
    let mut first_line = true;
    while pos < head_block.len()
        invariant
            pos <= head.len(),
            head == head_block@,
            h1_value(head, name@) == h1_value_from(head, name@, pos as int, first_line),
        decreases head.len() - pos,
    {
        let end = find_byte(head_block, 0x0Au8, pos);
        proof {
            lemma_pos_from(head, 0x0Au8, pos as int);
            lemma_next_line(head, pos as int);
        }
        let mut line = vstd::slice::slice_subrange(head_block, pos, end);
        if line.len() > 0 && line[line.len() - 1] == 0x0Du8 {
            line = vstd::slice::slice_subrange(line, 0, line.len() - 1);
            proof {
                assert(line@ =~= head.subrange(pos as int, end as int).drop_last());
            }
        }
        proof {
            assert(line@ == line_at(head, pos as int));
        }
        let next = if end < head_block.len() { end + 1 } else { end };
        if first_line {
            first_line = false;
        } else if line.len() == 0 {
            return None;
        } else {
            let colon = find_byte(line, 0x3Au8, 0);
            proof {
                lemma_pos_from(line@, 0x3Au8, 0);
            }
            if colon < line.len() {
                let n = vstd::slice::slice_subrange(line, 0, colon);
                if eq_ignore_ascii_case(n, name) {
                    let rest = vstd::slice::slice_subrange(line, colon + 1, line.len());
                    proof {
                        assert(rest@ =~= line@.skip(colon + 1));
                    }
                    let v = trim_ascii_ws(rest);
                    return Some(v);
                }
            }
        }
        pos = next;
    }
    None
}

/// The value of query parameter `key` in `path` (after the first `?`):
/// `key=value` gives `value`, a bare `key` an empty value.
pub fn query_param_value<'a>(path: &'a [u8], key: &[u8]) -> (r: Option<&'a [u8]>)
    ensures
        r matches Some(v) ==> query_value(path@, key@) == Some(v@),
        r is None ==> query_value(path@, key@) is None,
{
    let q = find_byte(path, 0x3Fu8, 0);
    proof {
        lemma_pos_from(path@, 0x3Fu8, 0);
    }
    if q >= path.len() {
        return None;
    }
    let mut i: usize = q + 1;
    while i <= path.len()
        invariant
            q < path@.len(),
            q + 1 <= i <= path@.len(),
            query_value(path@, key@) == query_from(path@, key@, i as int),
        decreases path@.len() + 1 - i,
    {
        let j = find_byte(path, 0x26u8, i);
        proof {
            lemma_pos_from(path@, 0x26u8, i as int);
        }
        let pair = vstd::slice::slice_subrange(path, i, j);
        let eq = find_byte(pair, 0x3Du8, 0);
        proof {
            lemma_pos_from(pair@, 0x3Du8, 0);
        }
        if eq < pair.len() {
            let k = vstd::slice::slice_subrange(pair, 0, eq);
            if bytes_eq(k, key) {
                let v = vstd::slice::slice_subrange(pair, eq + 1, pair.len());
                proof {
                    assert(v@ =~= pair@.skip(eq + 1));
                }
                return Some(v);
            }
        } else if bytes_eq(pair, key) {
            let v = vstd::slice::slice_subrange(pair, 0, 0);
            proof {
                assert(v@ =~= Seq::<u8>::empty());
            }
            return Some(v);
        }
        if j >= path.len() {
            return None;
        }
        i = j + 1;
    }
    None
}

/// The value of the first header named `name` (ASCII case ignored).
pub fn h2_header_value<'a>(headers: &'a [Header], name: &[u8]) -> (r: Option<&'a [u8]>)
    ensures
        r matches Some(v) ==> h2_value(headers@, name@) == Some(v@),
        r is None ==> h2_value(headers@, name@) is None,
{
    let mut i: usize = 0;
    while i < headers.len()
        invariant
            i <= headers@.len(),
            h2_value(headers@, name@) == h2_value_from(headers@, name@, i as int),
        decreases headers@.len() - i,
    {
        let h = &headers[i];
        if eq_ignore_ascii_case(h.name.as_slice(), name) {
            return Some(h.value.as_slice());
        }
        i = i + 1;
    }
    None
}

} // verus!

verus! {

/// One condition of a route; all of a route's conditions must hold.
#[derive(Clone, Debug)]
pub enum RouteMatcher {
    /// The request method is one of these.
    Method { methods: Vec<Vec<u8>> },
    /// The request host (or the TLS server name when there is no host)
    /// matches one of these patterns.
    Host { hosts: Vec<Vec<u8>> },
    /// The TLS server name matches one of these patterns.
    Sni { hosts: Vec<Vec<u8>> },
    /// The request has this header.
    HeaderPresent { name: Vec<u8> },
    /// The request's header has this value (trimmed).
    HeaderEquals { name: Vec<u8>, value: Vec<u8> },
    /// The query parameter has this value.
    QueryEquals { key: Vec<u8>, value: Vec<u8> },
    /// The connection is (or is not) TLS.
    Tls { enabled: bool },
    /// The request came over HTTP/2 (or not).
    H2 { enabled: bool },
}

/// What a route does with a request it selects.
#[derive(Clone, Debug)]
pub enum RouteAction {
    /// Proxy to the route's upstream.
    Forward,
    /// Answer directly: the whole HTTP/1 response, and for HTTP/2 the body
    /// and the extra headers.
    Respond { status: u16, http1_bytes: Vec<u8>, h2_body: Vec<u8>, h2_headers: Vec<(Vec<u8>, Vec<u8>)> },
}

/// A route: a path prefix, a priority, conditions and an action.
#[derive(Clone, Debug)]
pub struct Route {
    /// Path prefix the route is registered on.
    pub path: Vec<u8>,
    /// Higher wins.
    pub priority: i32,
    /// All must hold.
    pub matchers: Vec<RouteMatcher>,
    pub action: RouteAction,
    pub upstream_id: usize,
    pub plugin_ids: Vec<u32>,
}

/// Specificity of a route: longer paths first, then more conditions.
pub open spec fn route_specificity(r: Route) -> nat {
    r.path@.len() * 1024 + r.matchers@.len()
}

/// Between two routes, a strictly longer path prefix is strictly more
/// specific whatever the conditions (while the other has fewer than 1024),
/// and with paths of one length the route with more conditions is the
/// more specific.
pub proof fn law_longer_path_is_more_specific(a: Route, b: Route)
    ensures
        a.path@.len() > b.path@.len() && b.matchers@.len() < 1024 ==> route_specificity(a) > route_specificity(
            b,
        ),
        a.path@.len() == b.path@.len() ==> (route_specificity(a) > route_specificity(b) <==> a.matchers@.len()
            > b.matchers@.len()),
        route_specificity(a) >= a.path@.len() * 1024,
{
}

/// A route whose specificity fits in `u32`.
pub open spec fn route_fits(r: Route) -> bool {
    route_specificity(r) <= u32::MAX
}

impl Route {
    /// `path length * 1024 + number of conditions`.
    pub fn specificity(&self) -> (r: u32)
        requires
            route_fits(*self),
        ensures
            r == route_specificity(*self),
    {
        (self.path.len() as u32) * 1024 + (self.matchers.len() as u32)
    }
}

/// The header name a condition looks up (empty for the others).
pub open spec fn matcher_header(m: RouteMatcher) -> Seq<u8> {
    match m {
        RouteMatcher::HeaderPresent { name } => name@,
        RouteMatcher::HeaderEquals { name, .. } => name@,
        _ => Seq::empty(),
    }
}

/// `o`'s bytes, or the empty string.
pub open spec fn or_empty(o: Option<Seq<u8>>) -> Seq<u8> {
    match o {
        Some(v) => v,
        None => Seq::empty(),
    }
}

/// `a` when present, else `b`.
pub open spec fn or_opt(a: Option<Seq<u8>>, b: Option<Seq<u8>>) -> Option<Seq<u8>> {
    match a {
        Some(v) => Some(v),
        None => b,
    }
}

/// The bytes of an optional byte slice.
pub open spec fn opt_bytes(o: Option<&[u8]>) -> Option<Seq<u8>> {
    match o {
        Some(v) => Some(v@),
        None => None,
    }
}

/// Whether condition `m` holds of a request whose header named by the
/// condition has value `hv`.
pub open spec fn matcher_holds(
    m: RouteMatcher,
    method: Seq<u8>,
    full_path: Seq<u8>,
    hv: Option<Seq<u8>>,
    host: Option<Seq<u8>>,
    sni: Option<Seq<u8>>,
    is_tls: bool,
    is_h2: bool,
) -> bool {
    match m {
        RouteMatcher::Method { methods } => exists|k: int| 0 <= k < methods@.len() && #[trigger] methods@[k]@ == method,
        RouteMatcher::Host { hosts } => host_matches(or_empty(or_opt(host, sni)), byte_strings(hosts@)),
        RouteMatcher::Sni { hosts } => host_matches(or_empty(sni), byte_strings(hosts@)),
        RouteMatcher::HeaderPresent { .. } => hv is Some,
        RouteMatcher::HeaderEquals { value, .. } => hv matches Some(v) && trim_ws(v) == value@,
        RouteMatcher::QueryEquals { key, value } => query_value(full_path, key@) == Some(value@),
        RouteMatcher::Tls { enabled } => enabled == is_tls,
        RouteMatcher::H2 { enabled } => enabled == is_h2,
    }
}

/// Whether every condition of `r` holds of an HTTP/1 request.
pub open spec fn route_holds_h1(
    r: Route,
    method: Seq<u8>,
    full_path: Seq<u8>,
    head: Seq<u8>,
    host: Option<Seq<u8>>,
    sni: Option<Seq<u8>>,
    is_tls: bool,
) -> bool {
    forall|k: int|
        0 <= k < r.matchers@.len() ==> #[trigger] matcher_holds(
            r.matchers@[k],
            method,
            full_path,
            h1_value(head, matcher_header(r.matchers@[k])),
            host,
            sni,
            is_tls,
            false,
        )
}

/// Whether every condition of `r` holds of an HTTP/2 request.
pub open spec fn route_holds_h2(
    r: Route,
    method: Seq<u8>,
    full_path: Seq<u8>,
    headers: Seq<Header>,
    host: Option<Seq<u8>>,
    sni: Option<Seq<u8>>,
    is_tls: bool,
) -> bool {
    forall|k: int|
        0 <= k < r.matchers@.len() ==> #[trigger] matcher_holds(
            r.matchers@[k],
            method,
            full_path,
            h2_value(headers, matcher_header(r.matchers@[k])),
            host,
            sni,
            is_tls,
            true,
        )
}

fn method_in(methods: &Vec<Vec<u8>>, method: &[u8]) -> (r: bool)
    ensures
        r == exists|k: int| 0 <= k < methods@.len() && #[trigger] methods@[k]@ == method@,
{
    let mut k: usize = 0;
    while k < methods.len()
        invariant
            k <= methods@.len(),
            forall|j: int| 0 <= j < k ==> #[trigger] methods@[j]@ != method@,
        decreases methods@.len() - k,
    {
        if bytes_eq(methods[k].as_slice(), method) {
            return true;
        }
        k = k + 1;
    }
    false
}

fn opt_or<'a>(a: Option<&'a [u8]>, b: Option<&'a [u8]>) -> (r: &'a [u8])
    ensures
        r@ == or_empty(or_opt(opt_bytes(a), opt_bytes(b))),
{
    match a {
        Some(v) => v,
        None => match b {
            Some(v) => v,
            None => vstd::slice::slice_subrange(&[], 0, 0),
        },
    }
}

/// Evaluates one condition; `hv` is the value of the header it names.
fn matcher_check(
    m: &RouteMatcher,
    method: &[u8],
    full_path: &[u8],
    hv: Option<&[u8]>,
    host: Option<&[u8]>,
    sni: Option<&[u8]>,
    is_tls: bool,
    is_h2: bool,
) -> (r: bool)
    ensures
        r == matcher_holds(*m, method@, full_path@, opt_bytes(hv), opt_bytes(host), opt_bytes(sni), is_tls, is_h2),
{
    match m {
        RouteMatcher::Method { methods } => method_in(methods, method),
        RouteMatcher::Host { hosts } => {
            let h = opt_or(host, sni);
            host_matches_any(h, hosts)
        },
        RouteMatcher::Sni { hosts } => {
            let s = opt_or(sni, None);
            host_matches_any(s, hosts)
        },
        RouteMatcher::HeaderPresent { .. } => hv.is_some(),
        RouteMatcher::HeaderEquals { value, .. } => match hv {
            Some(v) => bytes_eq(trim_ascii_ws(v), value.as_slice()),
            None => false,
        },
        RouteMatcher::QueryEquals { key, value } => match query_param_value(full_path, key.as_slice()) {
            Some(v) => bytes_eq(v, value.as_slice()),
            None => false,
        },
        RouteMatcher::Tls { enabled } => *enabled == is_tls,
        RouteMatcher::H2 { enabled } => *enabled == is_h2,
    }
}

fn matcher_name(m: &RouteMatcher) -> (r: &[u8])
    ensures
        r@ == matcher_header(*m),
{
    match m {
        RouteMatcher::HeaderPresent { name } => name.as_slice(),
        RouteMatcher::HeaderEquals { name, .. } => name.as_slice(),
        _ => vstd::slice::slice_subrange(&[], 0, 0),
    }
}

/// Whether every condition of `route` holds of an HTTP/1 request.
pub fn route_matches_http1(
    route: &Route,
    method: &[u8],
    full_path: &[u8],
    head_block: &[u8],
    host: Option<&[u8]>,
    sni: Option<&[u8]>,
    is_tls: bool,
) -> (r: bool)
    ensures
        r == route_holds_h1(*route, method@, full_path@, head_block@, opt_bytes(host), opt_bytes(sni), is_tls),
{
    let mut k: usize = 0;
    while k < route.matchers.len()
        invariant
            k <= route.matchers@.len(),
            forall|j: int|
                0 <= j < k ==> #[trigger] matcher_holds(
                    route.matchers@[j],
                    method@,
                    full_path@,
                    h1_value(head_block@, matcher_header(route.matchers@[j])),
                    opt_bytes(host),
                    opt_bytes(sni),
                    is_tls,
                    false,
                ),
        decreases route.matchers@.len() - k,
    {
        let m = &route.matchers[k];
        let hv = http1_header_value(head_block, matcher_name(m));
        if !matcher_check(m, method, full_path, hv, host, sni, is_tls, false) {
            return false;
        }
        k = k + 1;
    }
    true
}

/// Whether every condition of `route` holds of an HTTP/2 request.
pub fn route_matches_h2(
    route: &Route,
    method: &[u8],
    full_path: &[u8],
    headers: &[Header],
    host: Option<&[u8]>,
    sni: Option<&[u8]>,
    is_tls: bool,
) -> (r: bool)
    ensures
        r == route_holds_h2(*route, method@, full_path@, headers@, opt_bytes(host), opt_bytes(sni), is_tls),
{
    let mut k: usize = 0;
    while k < route.matchers.len()
        invariant
            k <= route.matchers@.len(),
            forall|j: int|
                0 <= j < k ==> #[trigger] matcher_holds(
                    route.matchers@[j],
                    method@,
                    full_path@,
                    h2_value(headers@, matcher_header(route.matchers@[j])),
                    opt_bytes(host),
                    opt_bytes(sni),
                    is_tls,
                    true,
                ),
        decreases route.matchers@.len() - k,
    {
        let m = &route.matchers[k];
        let hv = h2_header_value(headers, matcher_name(m));
        if !matcher_check(m, method, full_path, hv, host, sni, is_tls, true) {
            return false;
        }
        k = k + 1;
    }
    true
}

} // verus!
