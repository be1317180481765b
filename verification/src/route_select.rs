use vstd::prelude::*;
use crate::ascii::{trim_ws, trim_ascii_ws};
use crate::h2_hpack::Header;
use crate::route_match::{
    Route, route_fits, route_specificity, route_holds_h1, route_holds_h2, path_without_query,
    trim_dots, host_no_port, h1_value, h2_value, opt_bytes, or_opt, strip_query,
    http1_header_value, h2_header_value, host_without_port, trim_trailing_dot, route_matches_http1,
    route_matches_h2,
};
use crate::router::{Router, RouteId};

verus! {

/// Why no route was selected.
#[derive(Clone, Copy, Debug, PartialEq, Eq, Structural)]
pub enum RouteSelectError {
    /// No candidate route matched.
    NotFound,
    /// Several matching routes share the best priority and specificity.
    Ambiguous,
}

/// Running state of route selection: the best (priority, specificity) seen,
/// the route that set it, and how many matching candidates have it.
#[derive(Clone, Copy, Debug, PartialEq, Eq, Structural)]
pub struct Pick {
    pub pri: i32,
    pub spec: u32,
    pub id: u32,
    pub count: u32,
}

pub open spec fn pick_init() -> Pick {
    Pick { pri: i32::MIN, spec: 0, id: 0, count: 0 }
}

/// `a` ranks strictly above `b`: higher priority, then higher specificity.
pub open spec fn ranks_above(a: (i32, u32), b: (i32, u32)) -> bool {
    a.0 > b.0 || (a.0 == b.0 && a.1 > b.1)
}

/// Selection state after looking at candidate `rid`.
pub open spec fn pick_step(p: Pick, rid: u32, ok: bool, key: (i32, u32)) -> Pick {
    if !ok {
        p
    } else if ranks_above(key, (p.pri, p.spec)) {
        Pick { pri: key.0, spec: key.1, id: rid, count: 1 }
    } else if key.0 == p.pri && key.1 == p.spec {
        Pick { count: p.count.saturating_add(1u32), ..p }
    } else {
        p
    }
}

/// Selection state after the first `n` candidates.
pub open spec fn pick_fold(cands: Seq<u32>, ok: spec_fn(u32) -> bool, key: spec_fn(u32) -> (i32, u32), n: int) -> Pick
    decreases n,
{
    if n <= 0 {
        pick_init()
    } else {
        pick_step(pick_fold(cands, ok, key, n - 1), cands[n - 1], ok(cands[n - 1]), key(cands[n - 1]))
    }
}

/// The outcome of a selection state.
pub open spec fn pick_result(p: Pick) -> Result<u32, RouteSelectError> {
    if p.count == 0 {
        Err(RouteSelectError::NotFound)
    } else if p.count > 1 {
        Err(RouteSelectError::Ambiguous)
    } else {
        Ok(p.id)
    }
}

/// (priority, specificity) of route `rid`.
pub open spec fn route_key(routes: Seq<Route>, rid: u32) -> (i32, u32) {
    if rid < routes.len() {
        (routes[rid as int].priority, route_specificity(routes[rid as int]) as u32)
    } else {
        (i32::MIN, 0u32)
    }
}

pub open spec fn key_fn(routes: Seq<Route>) -> spec_fn(u32) -> (i32, u32) {
    |rid: u32| route_key(routes, rid)
}

/// The host a request is routed by: trimmed, without port, without trailing dots.
pub open spec fn norm_host(v: Seq<u8>) -> Seq<u8> {
    trim_dots(host_no_port(trim_ws(v)))
}

pub open spec fn norm_host_opt(o: Option<Seq<u8>>) -> Option<Seq<u8>> {
    match o {
        Some(v) => Some(norm_host(v)),
        None => None,
    }
}

pub open spec fn host_name() -> Seq<u8> {
    seq![0x68u8, 0x6Fu8, 0x73u8, 0x74u8]
}

/// Route `rid` exists and matches an HTTP/1 request.
pub open spec fn ok_h1_fn(
    routes: Seq<Route>,
    method: Seq<u8>,
    full_path: Seq<u8>,
    head: Seq<u8>,
    sni: Option<Seq<u8>>,
    is_tls: bool,
) -> spec_fn(u32) -> bool {
    |rid: u32|
        rid < routes.len() && route_holds_h1(
            routes[rid as int],
            method,
            full_path,
            head,
            norm_host_opt(h1_value(head, host_name())),
            sni,
            is_tls,
        )
}

/// Route `rid` exists and matches an HTTP/2 request.
pub open spec fn ok_h2_fn(
    routes: Seq<Route>,
    method: Seq<u8>,
    full_path: Seq<u8>,
    authority: Option<Seq<u8>>,
    headers: Seq<Header>,
    sni: Option<Seq<u8>>,
    is_tls: bool,
) -> spec_fn(u32) -> bool {
    |rid: u32|
        rid < routes.len() && route_holds_h2(
            routes[rid as int],
            method,
            full_path,
            headers,
            norm_host_opt(or_opt(authority, h2_value(headers, host_name()))),
            sni,
            is_tls,
        )
}

fn norm_host_exec<'a>(v: Option<&'a [u8]>) -> (r: Option<&'a [u8]>)
    ensures
        opt_bytes(r) == norm_host_opt(opt_bytes(v)),
{
    match v {
        Some(h) => Some(trim_trailing_dot(host_without_port(trim_ascii_ws(h)))),
        None => None,
    }
}

fn pick_next(p: Pick, rid: u32, ok: bool, key: (i32, u32)) -> (r: Pick)
    ensures
        r == pick_step(p, rid, ok, key),
{
    if !ok {
        p
    } else if key.0 > p.pri || (key.0 == p.pri && key.1 > p.spec) {
        Pick { pri: key.0, spec: key.1, id: rid, count: 1 }
    } else if key.0 == p.pri && key.1 == p.spec {
        Pick { count: p.count.saturating_add(1u32), ..p }
    } else {
        p
    }
}

fn to_result(p: Pick) -> (r: Result<u32, RouteSelectError>)
    ensures
        r == pick_result(p),
{
    if p.count == 0 {
        Err(RouteSelectError::NotFound)
    } else if p.count > 1 {
        Err(RouteSelectError::Ambiguous)
    } else {
        Ok(p.id)
    }
}

/// Selects the route for an HTTP/1 request: among the candidates of its
/// path (query removed) that exist and whose conditions hold, the one of
/// highest priority, then highest specificity; none is `NotFound`, a tie at
/// the top is `Ambiguous`.
pub fn select_route_http1(
    router: &Router,
    routes: &Vec<Route>,
    method: &[u8],
    full_path: &[u8],
    head_block: &[u8],
    sni: Option<&[u8]>,
    is_tls: bool,
) -> (r: Result<u32, RouteSelectError>)
    requires
        router.wf(),
        forall|i: int| 0 <= i < routes@.len() ==> #[trigger] route_fits(routes@[i]),
    ensures
        ({
            let cands = router.candidates(path_without_query(full_path@));
            r == pick_result(
                pick_fold(
                    cands,
                    ok_h1_fn(routes@, method@, full_path@, head_block@, opt_bytes(sni), is_tls),
                    key_fn(routes@),
                    cands.len() as int,
                ),
            )
        }),
{
    let path_no_q = strip_query(full_path);
    let host_key: [u8; 4] = [0x68u8, 0x6Fu8, 0x73u8, 0x74u8];
    let hk = host_key.as_slice();
    proof {
        assert(hk@ =~= host_name());
    }
    let host = norm_host_exec(http1_header_value(head_block, hk));
    let cands = router.for_each_candidate(path_no_q);
    let ghost okf = ok_h1_fn(routes@, method@, full_path@, head_block@, opt_bytes(sni), is_tls);
    let ghost keyf = key_fn(routes@);
    let mut best = Pick { pri: i32::MIN, spec: 0, id: 0, count: 0 };
    let mut i: usize = 0;
    while i < cands.len()
        invariant
            i <= cands@.len(),
            forall|j: int| 0 <= j < routes@.len() ==> #[trigger] route_fits(routes@[j]),
            opt_bytes(host) == norm_host_opt(h1_value(head_block@, host_name())),
            okf == ok_h1_fn(routes@, method@, full_path@, head_block@, opt_bytes(sni), is_tls),
            keyf == key_fn(routes@),
            best == pick_fold(cands@, okf, keyf, i as int),
        decreases cands@.len() - i,
    {
        let rid = cands[i];
        let mut ok = false;
        let mut key: (i32, u32) = (i32::MIN, 0);
        if (rid as usize) < routes.len() {
            let route = &routes[rid as usize];
            ok = route_matches_http1(route, method, full_path, head_block, host, sni, is_tls);
            key = (route.priority, route.specificity());
        }
        proof {
            assert(ok == okf(rid));
            if ok {
                assert(key == keyf(rid));
            }
        }
        best = pick_next(best, rid, ok, key);
        proof {
            if !ok {
                assert(best == pick_step(pick_fold(cands@, okf, keyf, i as int), rid, okf(rid), keyf(rid)));
            }
        }
        i = i + 1;
    }
    to_result(best)
}

/// Selects the route for an HTTP/2 request as `select_route_http1` does;
/// the host is the `:authority`, or else the `host` header.
pub fn select_route_h2(
    router: &Router,
    routes: &Vec<Route>,
    method: &[u8],
    full_path: &[u8],
    authority: Option<&[u8]>,
    headers: &[Header],
    sni: Option<&[u8]>,
    is_tls: bool,
) -> (r: Result<u32, RouteSelectError>)
    requires
        router.wf(),
        forall|i: int| 0 <= i < routes@.len() ==> #[trigger] route_fits(routes@[i]),
    ensures
        ({
            let cands = router.candidates(path_without_query(full_path@));
            r == pick_result(
                pick_fold(
                    cands,
                    ok_h2_fn(routes@, method@, full_path@, opt_bytes(authority), headers@, opt_bytes(sni), is_tls),
                    key_fn(routes@),
                    cands.len() as int,
                ),
            )
        }),
{
    let path_no_q = strip_query(full_path);
    let host_key: [u8; 4] = [0x68u8, 0x6Fu8, 0x73u8, 0x74u8];
    let hk = host_key.as_slice();
    proof {
        assert(hk@ =~= host_name());
    }
    let raw = match authority {
        Some(a) => Some(a),
        None => h2_header_value(headers, hk),
    };
    let host = norm_host_exec(raw);
    let cands = router.for_each_candidate(path_no_q);
    let ghost okf = ok_h2_fn(routes@, method@, full_path@, opt_bytes(authority), headers@, opt_bytes(sni), is_tls);
    let ghost keyf = key_fn(routes@);
    let mut best = Pick { pri: i32::MIN, spec: 0, id: 0, count: 0 };
    let mut i: usize = 0;
    while i < cands.len()
        invariant
            i <= cands@.len(),
            forall|j: int| 0 <= j < routes@.len() ==> #[trigger] route_fits(routes@[j]),
            opt_bytes(host) == norm_host_opt(or_opt(opt_bytes(authority), h2_value(headers@, host_name()))),
            okf == ok_h2_fn(routes@, method@, full_path@, opt_bytes(authority), headers@, opt_bytes(sni), is_tls),
            keyf == key_fn(routes@),
            best == pick_fold(cands@, okf, keyf, i as int),
        decreases cands@.len() - i,
    {
        let rid = cands[i];
        let mut ok = false;
        let mut key: (i32, u32) = (i32::MIN, 0);
        if (rid as usize) < routes.len() {
            let route = &routes[rid as usize];
            ok = route_matches_h2(route, method, full_path, headers, host, sni, is_tls);
            key = (route.priority, route.specificity());
        }
        proof {
            assert(ok == okf(rid));
            if ok {
                assert(key == keyf(rid));
            }
        }
        best = pick_next(best, rid, ok, key);
        proof {
            if !ok {
                assert(best == pick_step(pick_fold(cands@, okf, keyf, i as int), rid, okf(rid), keyf(rid)));
            }
        }
        i = i + 1;
    }
    to_result(best)
}

/// What the selection state says of the first `n` candidates.
pub open spec fn pick_sound(cands: Seq<u32>, ok: spec_fn(u32) -> bool, key: spec_fn(u32) -> (i32, u32), n: int) -> bool {
    let p = pick_fold(cands, ok, key, n);
    let top = (p.pri, p.spec);
    &&& forall|j: int| 0 <= j < n && ok(cands[j]) ==> !ranks_above(#[trigger] key(cands[j]), top)
    &&& (p.count == 0 <==> forall|j: int| 0 <= j < n ==> !ok(#[trigger] cands[j]))
    &&& (p.count == 0 ==> top == (i32::MIN, 0u32))
    &&& (p.count > 0 && top != (i32::MIN, 0u32) ==> exists|j: int|
        0 <= j < n && ok(cands[j]) && #[trigger] cands[j] == p.id && key(cands[j]) == top)
    &&& (p.count == 1 && top != (i32::MIN, 0u32) ==> forall|j1: int, j2: int|
        0 <= j1 < n && 0 <= j2 < n && ok(#[trigger] cands[j1]) && ok(#[trigger] cands[j2]) && key(cands[j1]) == top
            && key(cands[j2]) == top ==> j1 == j2)
    &&& (p.count > 1 && top != (i32::MIN, 0u32) ==> exists|j1: int, j2: int|
        0 <= j1 < n && 0 <= j2 < n && j1 != j2 && ok(#[trigger] cands[j1]) && ok(#[trigger] cands[j2]) && key(
            cands[j1],
        ) == top && key(cands[j2]) == top)
}

/// Route selection is sound: no matching candidate ranks above the selected
/// (priority, specificity); `NotFound` exactly when no candidate matches; a
/// selected route is a matching candidate and the only one at the top; an
/// ambiguous result has two matching candidates tied at the top. (A top
/// equal to the starting point `(i32::MIN, 0)` is left out of the last three.)
pub proof fn lemma_pick_sound(cands: Seq<u32>, ok: spec_fn(u32) -> bool, key: spec_fn(u32) -> (i32, u32), n: int)
    requires
        0 <= n <= cands.len(),
    ensures
        pick_sound(cands, ok, key, n),
    decreases n,
{
    if n == 0 {
        return ;
    }
    lemma_pick_sound(cands, ok, key, n - 1);
    let p0 = pick_fold(cands, ok, key, n - 1);
    let p = pick_fold(cands, ok, key, n);
    let c = cands[n - 1];
    let top0 = (p0.pri, p0.spec);
    let top = (p.pri, p.spec);
    assert(p == pick_step(p0, c, ok(c), key(c)));
    if ok(c) && ranks_above(key(c), top0) {
        assert forall|j: int| 0 <= j < n && ok(cands[j]) implies !ranks_above(#[trigger] key(cands[j]), top) by {
            if j < n - 1 {
                assert(!ranks_above(key(cands[j]), top0));
            }
        }
        assert(ok(cands[n - 1]) && cands[n - 1] == p.id && key(cands[n - 1]) == top);
        assert forall|j1: int, j2: int|
            0 <= j1 < n && 0 <= j2 < n && ok(#[trigger] cands[j1]) && ok(#[trigger] cands[j2]) && key(cands[j1]) == top
                && key(cands[j2]) == top implies j1 == j2 by {
            if j1 < n - 1 {
                assert(!ranks_above(key(cands[j1]), top0));
            }
            if j2 < n - 1 {
                assert(!ranks_above(key(cands[j2]), top0));
            }
        }
    } else if ok(c) && key(c) == top0 {
        if p0.count > 0 && top0 != (i32::MIN, 0u32) {
            let j = choose|j: int| 0 <= j < n - 1 && ok(cands[j]) && #[trigger] cands[j] == p0.id && key(cands[j]) == top0;
            assert(j != n - 1 && ok(cands[j]) && ok(cands[n - 1]) && key(cands[j]) == top && key(cands[n - 1]) == top);
        }
        if p0.count > 1 && top0 != (i32::MIN, 0u32) {
            let (j1, j2) = choose|j1: int, j2: int|
                0 <= j1 < n - 1 && 0 <= j2 < n - 1 && j1 != j2 && ok(#[trigger] cands[j1]) && ok(#[trigger] cands[j2])
                    && key(cands[j1]) == top0 && key(cands[j2]) == top0;
            assert(ok(cands[j1]) && ok(cands[j2]));
        }
        if p0.count > 0 && top0 != (i32::MIN, 0u32) {
            let j = choose|j: int| 0 <= j < n - 1 && ok(cands[j]) && #[trigger] cands[j] == p0.id && key(cands[j]) == top0;
            assert(ok(cands[j]) && cands[j] == p.id && key(cands[j]) == top);
        }
        assert(!(forall|j: int| 0 <= j < n ==> !ok(#[trigger] cands[j]))) by {
            assert(ok(cands[n - 1]));
        }
    } else if ok(c) {
        assert(!(forall|j: int| 0 <= j < n ==> !ok(#[trigger] cands[j]))) by {
            assert(ok(cands[n - 1]));
        }
        if p0.count > 0 && top0 != (i32::MIN, 0u32) {
            let j = choose|j: int| 0 <= j < n - 1 && ok(cands[j]) && #[trigger] cands[j] == p0.id && key(cands[j]) == top0;
            assert(ok(cands[j]) && cands[j] == p.id && key(cands[j]) == top);
        }
        if p0.count > 1 && top0 != (i32::MIN, 0u32) {
            let (j1, j2) = choose|j1: int, j2: int|
                0 <= j1 < n - 1 && 0 <= j2 < n - 1 && j1 != j2 && ok(#[trigger] cands[j1]) && ok(#[trigger] cands[j2])
                    && key(cands[j1]) == top0 && key(cands[j2]) == top0;
            assert(ok(cands[j1]) && ok(cands[j2]));
        }
    } else {
        if p0.count > 0 && top0 != (i32::MIN, 0u32) {
            let j = choose|j: int| 0 <= j < n - 1 && ok(cands[j]) && #[trigger] cands[j] == p0.id && key(cands[j]) == top0;
            assert(ok(cands[j]) && cands[j] == p.id && key(cands[j]) == top);
        }
        if p0.count > 1 && top0 != (i32::MIN, 0u32) {
            let (j1, j2) = choose|j1: int, j2: int|
                0 <= j1 < n - 1 && 0 <= j2 < n - 1 && j1 != j2 && ok(#[trigger] cands[j1]) && ok(#[trigger] cands[j2])
                    && key(cands[j1]) == top0 && key(cands[j2]) == top0;
            assert(ok(cands[j1]) && ok(cands[j2]));
        }
    }
}

} // verus!
