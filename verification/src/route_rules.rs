use vstd::prelude::*;
use crate::arc_error::ArcError;
use crate::route_match::{RouteMatcher, RouteAction};
use crate::text::{trimmed, trim_str, str_bytes, dec_chars, dec_bytes, push_decimal, append_decimal, utf8, push_all, push_str};

verus! {

/// A route condition as written in the configuration.
#[derive(Clone, Debug)]
pub enum RouteMatcherSpec {
    Method { methods: Vec<String> },
    Host { hosts: Vec<String> },
    Sni { hosts: Vec<String> },
    HeaderPresent { name: String },
    HeaderEquals { name: String, value: String },
    QueryEquals { key: String, value: String },
    Tls { enabled: bool },
    H2 { enabled: bool },
}

/// An extra response header as written in the configuration.
#[derive(Clone, Debug)]
pub struct RouteHeaderSpec {
    pub name: String,
    pub value: String,
}

/// A route action as written in the configuration.
#[derive(Clone, Debug)]
pub enum RouteActionSpec {
    Forward,
    Respond { status: u16, body: String, headers: Vec<RouteHeaderSpec> },
}

impl Default for RouteActionSpec {
    fn default() -> (r: Self)
        ensures
            r is Forward,
    {
        RouteActionSpec::Forward
    }
}

/// The text of each string.
pub open spec fn strings(v: Seq<String>) -> Seq<Seq<char>> {
    v.map_values(|x: String| x@)
}

/// The UTF-8 bytes of `s` trimmed.
pub open spec fn trimmed_bytes(s: Seq<char>) -> Seq<u8> {
    utf8(trimmed(s))
}

/// A list of values is accepted when it is not empty and no value is blank.
pub open spec fn list_ok(items: Seq<Seq<char>>) -> bool {
    items.len() > 0 && forall|k: int| 0 <= k < items.len() ==> #[trigger] trimmed(items[k]).len() > 0
}

pub open spec fn list_err(items: Seq<Seq<char>>, empty_msg: Seq<char>, blank_msg: Seq<char>) -> Seq<char> {
    if items.len() == 0 { empty_msg } else { blank_msg }
}

/// `out` holds the trimmed bytes of each of `items`.
pub open spec fn list_compiled(items: Seq<Seq<char>>, out: Seq<Vec<u8>>) -> bool {
    out.len() == items.len() && forall|k: int| 0 <= k < items.len() ==> #[trigger] out[k]@ == trimmed_bytes(items[k])
}

/// Why a configured condition is refused, if it is.
pub open spec fn matcher_error(m: RouteMatcherSpec) -> Option<Seq<char>> {
    match m {
        RouteMatcherSpec::Method { methods } => if list_ok(strings(methods@)) {
            None
        } else {
            Some(
                list_err(
                    strings(methods@),
                    "route matcher method.methods must not be empty"@,
                    "route matcher method.methods contains empty value"@,
                ),
            )
        },
        RouteMatcherSpec::Host { hosts } => if list_ok(strings(hosts@)) {
            None
        } else {
            Some(
                list_err(
                    strings(hosts@),
                    "route matcher host.hosts must not be empty"@,
                    "route matcher host.hosts contains empty value"@,
                ),
            )
        },
        RouteMatcherSpec::Sni { hosts } => if list_ok(strings(hosts@)) {
            None
        } else {
            Some(
                list_err(
                    strings(hosts@),
                    "route matcher sni.hosts must not be empty"@,
                    "route matcher sni.hosts contains empty value"@,
                ),
            )
        },
        RouteMatcherSpec::HeaderPresent { name } => if trimmed(name@).len() > 0 {
            None
        } else {
            Some("route matcher header_present.name must not be empty"@)
        },
        RouteMatcherSpec::HeaderEquals { name, .. } => if trimmed(name@).len() > 0 {
            None
        } else {
            Some("route matcher header_equals.name must not be empty"@)
        },
        RouteMatcherSpec::QueryEquals { key, .. } => if trimmed(key@).len() > 0 {
            None
        } else {
            Some("route matcher query_equals.key must not be empty"@)
        },
        RouteMatcherSpec::Tls { .. } => None,
        RouteMatcherSpec::H2 { .. } => None,
    }
}

/// `c` is the compiled form of the accepted condition `m`: names, hosts and
/// methods trimmed, everything as UTF-8 bytes.
pub open spec fn matcher_compiled(m: RouteMatcherSpec, c: RouteMatcher) -> bool {
    match m {
        RouteMatcherSpec::Method { methods } => c matches RouteMatcher::Method { methods: cm } && list_compiled(
            strings(methods@),
            cm@,
        ),
        RouteMatcherSpec::Host { hosts } => c matches RouteMatcher::Host { hosts: ch } && list_compiled(
            strings(hosts@),
            ch@,
        ),
        RouteMatcherSpec::Sni { hosts } => c matches RouteMatcher::Sni { hosts: ch } && list_compiled(
            strings(hosts@),
            ch@,
        ),
        RouteMatcherSpec::HeaderPresent { name } => c matches RouteMatcher::HeaderPresent { name: n } && n@
            == trimmed_bytes(name@),
        RouteMatcherSpec::HeaderEquals { name, value } => c matches RouteMatcher::HeaderEquals {
            name: n,
            value: v,
        } && n@ == trimmed_bytes(name@) && v@ == utf8(value@),
        RouteMatcherSpec::QueryEquals { key, value } => c matches RouteMatcher::QueryEquals { key: k, value: v }
            && k@ == trimmed_bytes(key@) && v@ == utf8(value@),
        RouteMatcherSpec::Tls { enabled } => c matches RouteMatcher::Tls { enabled: e } && e == enabled,
        RouteMatcherSpec::H2 { enabled } => c matches RouteMatcher::H2 { enabled: e } && e == enabled,
    }
}

fn config_error(msg: &str) -> (r: ArcError)
    ensures
        r is Config,
        r.config_msg() == msg@,
{
    ArcError::config(String::from_str(msg))
}

fn compile_list(items: &Vec<String>, empty_msg: &str, blank_msg: &str) -> (r: Result<Vec<Vec<u8>>, ArcError>)
    ensures
        r is Ok <==> list_ok(strings(items@)),
        r matches Ok(v) ==> list_compiled(strings(items@), v@),
        r matches Err(e) ==> e is Config && e.config_msg() == list_err(strings(items@), empty_msg@, blank_msg@),
{
    let ghost its = strings(items@);
    if items.len() == 0 {
        return Err(config_error(empty_msg));
    }
    let mut out: Vec<Vec<u8>> = Vec::new();
    let mut k: usize = 0;
    while k < items.len()
        invariant
            k <= items@.len(),
            items@.len() > 0,
            its == strings(items@),
            out@.len() == k,
            forall|j: int| 0 <= j < k ==> #[trigger] out@[j]@ == trimmed_bytes(its[j]),
            forall|j: int| 0 <= j < k ==> #[trigger] trimmed(its[j]).len() > 0,
        decreases items@.len() - k,
    {
        let s = trim_str(items[k].as_str());
        if s.unicode_len() == 0 {
            proof {
                assert(trimmed(its[k as int]).len() == 0);
            }
            return Err(config_error(blank_msg));
        }
        out.push(str_bytes(s));
        k = k + 1;
    }
    Ok(out)
}

/// Compiles the configured conditions of a route, in order; the first one
/// refused makes the whole list refused with its reason.
pub fn compile_matchers(specs: &Vec<RouteMatcherSpec>) -> (r: Result<Vec<RouteMatcher>, ArcError>)
    ensures
        r is Ok <==> forall|k: int| 0 <= k < specs@.len() ==> #[trigger] matcher_error(specs@[k]) is None,
        r matches Ok(v) ==> v@.len() == specs@.len() && forall|k: int|
            0 <= k < specs@.len() ==> #[trigger] matcher_compiled(specs@[k], v@[k]),
        r matches Err(e) ==> e is Config && exists|k: int|
            0 <= k < specs@.len() && #[trigger] matcher_error(specs@[k]) == Some(e.config_msg()) && forall|j: int|
                0 <= j < k ==> #[trigger] matcher_error(specs@[j]) is None,
{
    let mut out: Vec<RouteMatcher> = Vec::new();
    let mut k: usize = 0;
    while k < specs.len()
        invariant
            k <= specs@.len(),
            out@.len() == k,
            forall|j: int| 0 <= j < k ==> #[trigger] matcher_error(specs@[j]) is None,
            forall|j: int| 0 <= j < k ==> #[trigger] matcher_compiled(specs@[j], out@[j]),
        decreases specs@.len() - k,
    {
        let compiled = match &specs[k] {
            RouteMatcherSpec::Method { methods } => match compile_list(
                methods,
                "route matcher method.methods must not be empty",
                "route matcher method.methods contains empty value",
            ) {
                Ok(v) => RouteMatcher::Method { methods: v },
                Err(e) => {
                    proof {
                        assert(matcher_error(specs@[k as int]) == Some(e.config_msg()));
                    }
                    return Err(e);
                },
            },
            RouteMatcherSpec::Host { hosts } => match compile_list(
                hosts,
                "route matcher host.hosts must not be empty",
                "route matcher host.hosts contains empty value",
            ) {
                Ok(v) => RouteMatcher::Host { hosts: v },
                Err(e) => {
                    proof {
                        assert(matcher_error(specs@[k as int]) == Some(e.config_msg()));
                    }
                    return Err(e);
                },
            },
            RouteMatcherSpec::Sni { hosts } => match compile_list(
                hosts,
                "route matcher sni.hosts must not be empty",
                "route matcher sni.hosts contains empty value",
            ) {
                Ok(v) => RouteMatcher::Sni { hosts: v },
                Err(e) => {
                    proof {
                        assert(matcher_error(specs@[k as int]) == Some(e.config_msg()));
                    }
                    return Err(e);
                },
            },
            RouteMatcherSpec::HeaderPresent { name } => {
                let n = trim_str(name.as_str());
                if n.unicode_len() == 0 {
                    let e = config_error("route matcher header_present.name must not be empty");
                    proof {
                        assert(matcher_error(specs@[k as int]) == Some(e.config_msg()));
                    }
                    return Err(e);
                }
                RouteMatcher::HeaderPresent { name: str_bytes(n) }
            },
            RouteMatcherSpec::HeaderEquals { name, value } => {
                let n = trim_str(name.as_str());
                if n.unicode_len() == 0 {
                    let e = config_error("route matcher header_equals.name must not be empty");
                    proof {
                        assert(matcher_error(specs@[k as int]) == Some(e.config_msg()));
                    }
                    return Err(e);
                }
                RouteMatcher::HeaderEquals { name: str_bytes(n), value: str_bytes(value.as_str()) }
            },
            RouteMatcherSpec::QueryEquals { key, value } => {
                let n = trim_str(key.as_str());
                if n.unicode_len() == 0 {
                    let e = config_error("route matcher query_equals.key must not be empty");
                    proof {
                        assert(matcher_error(specs@[k as int]) == Some(e.config_msg()));
                    }
                    return Err(e);
                }
                RouteMatcher::QueryEquals { key: str_bytes(n), value: str_bytes(value.as_str()) }
            },
            RouteMatcherSpec::Tls { enabled } => RouteMatcher::Tls { enabled: *enabled },
            RouteMatcherSpec::H2 { enabled } => RouteMatcher::H2 { enabled: *enabled },
        };
        out.push(compiled);
        k = k + 1;
    }
    Ok(out)
}

/// The reason phrase sent with a status code.
pub open spec fn reason(status: u16) -> &'static str {
    if status == 200 { "OK" }
    else if status == 204 { "No Content" }
    else if status == 301 { "Moved Permanently" }
    else if status == 302 { "Found" }
    else if status == 307 { "Temporary Redirect" }
    else if status == 308 { "Permanent Redirect" }
    else if status == 400 { "Bad Request" }
    else if status == 401 { "Unauthorized" }
    else if status == 403 { "Forbidden" }
    else if status == 404 { "Not Found" }
    else if status == 413 { "Payload Too Large" }
    else if status == 429 { "Too Many Requests" }
    else if status == 500 { "Internal Server Error" }
    else if status == 502 { "Bad Gateway" }
    else if status == 503 { "Service Unavailable" }
    else if status == 504 { "Gateway Timeout" }
    else { "OK" }
}

fn reason_str(status: u16) -> (r: &'static str)
    ensures
        r@ == reason(status)@,
{
    if status == 200 { "OK" }
    else if status == 204 { "No Content" }
    else if status == 301 { "Moved Permanently" }
    else if status == 302 { "Found" }
    else if status == 307 { "Temporary Redirect" }
    else if status == 308 { "Permanent Redirect" }
    else if status == 400 { "Bad Request" }
    else if status == 401 { "Unauthorized" }
    else if status == 403 { "Forbidden" }
    else if status == 404 { "Not Found" }
    else if status == 413 { "Payload Too Large" }
    else if status == 429 { "Too Many Requests" }
    else if status == 500 { "Internal Server Error" }
    else if status == 502 { "Bad Gateway" }
    else if status == 503 { "Service Unavailable" }
    else if status == 504 { "Gateway Timeout" }
    else { "OK" }
}

/// The bytes of each header pair.
pub open spec fn header_pairs(h: Seq<(Vec<u8>, Vec<u8>)>) -> Seq<(Seq<u8>, Seq<u8>)> {
    h.map_values(|p: (Vec<u8>, Vec<u8>)| (p.0@, p.1@))
}

/// `name: value\r\n` for each header, in order.
pub open spec fn header_lines(h: Seq<(Seq<u8>, Seq<u8>)>) -> Seq<u8>
    decreases h.len(),
{
    if h.len() == 0 {
        Seq::empty()
    } else {
        header_lines(h.drop_last()) + h.last().0 + utf8(": "@) + h.last().1 + utf8("\r\n"@)
    }
}

/// A complete HTTP/1.1 response that closes the connection: status line,
/// `Connection: close`, `Content-Length`, the extra headers, a blank line,
/// the body.
pub open spec fn http1_response(status: u16, body: Seq<u8>, h: Seq<(Seq<u8>, Seq<u8>)>) -> Seq<u8> {
    utf8("HTTP/1.1 "@) + dec_bytes(status as nat) + utf8(" "@) + utf8(reason(status)@) + utf8("\r\n"@) + utf8(
        "Connection: close\r\n"@,
    ) + utf8("Content-Length: "@) + dec_bytes(body.len()) + utf8("\r\n"@) + header_lines(h) + utf8("\r\n"@) + body
}

/// Builds a complete HTTP/1.1 response that closes the connection.
pub fn build_http1_response_bytes(status: u16, body: &[u8], extra_headers: &[(Vec<u8>, Vec<u8>)]) -> (r: Vec<u8>)
    ensures
        r@ == http1_response(status, body@, header_pairs(extra_headers@)),
{
    let mut out: Vec<u8> = Vec::new();
    push_str(&mut out, "HTTP/1.1 ");
    push_decimal(&mut out, status as u64);
    push_str(&mut out, " ");
    push_str(&mut out, reason_str(status));
    push_str(&mut out, "\r\n");
    push_str(&mut out, "Connection: close\r\n");
    push_str(&mut out, "Content-Length: ");
    push_decimal(&mut out, body.len() as u64);
    push_str(&mut out, "\r\n");
    let ghost before = out@;
    let ghost hs = header_pairs(extra_headers@);
    let mut k: usize = 0;
    while k < extra_headers.len()
        invariant
            k <= extra_headers@.len(),
            hs == header_pairs(extra_headers@),
            out@ == before + header_lines(hs.take(k as int)),
        decreases extra_headers@.len() - k,
    {
        push_all(&mut out, extra_headers[k].0.as_slice());
        push_str(&mut out, ": ");
        push_all(&mut out, extra_headers[k].1.as_slice());
        push_str(&mut out, "\r\n");
        proof {
            let t = hs.take(k as int + 1);
            assert(t.drop_last() =~= hs.take(k as int));
            assert(t.last() == hs[k as int]);
        }
        k = k + 1;
    }
    proof {
        assert(hs.take(hs.len() as int) =~= hs);
    }
    push_str(&mut out, "\r\n");
    push_all(&mut out, body);
    proof {
        assert(out@ =~= http1_response(status, body@, hs));
    }
    out
}

/// Why a configured action is refused, if it is.
pub open spec fn action_error(a: RouteActionSpec) -> Option<Seq<char>> {
    match a {
        RouteActionSpec::Forward => None,
        RouteActionSpec::Respond { status, headers, .. } => if status < 100 || status > 599 {
            Some("route action respond.status must be 100..=599, got "@ + dec_chars(status as nat))
        } else if exists|k: int| 0 <= k < headers@.len() && #[trigger] trimmed(headers@[k].name@).len() == 0 {
            Some("route action respond.headers contains empty name"@)
        } else {
            None
        },
    }
}

/// `c` is the compiled form of the accepted action `a`.
pub open spec fn action_compiled(a: RouteActionSpec, c: RouteAction) -> bool {
    match a {
        RouteActionSpec::Forward => c is Forward,
        RouteActionSpec::Respond { status, body, headers } => c matches RouteAction::Respond {
            status: s,
            http1_bytes,
            h2_body,
            h2_headers,
        } && s == status && h2_body@ == utf8(body@) && h2_headers@.len() == headers@.len() && (forall|k: int|
            0 <= k < headers@.len() ==> #[trigger] h2_headers@[k].0@ == trimmed_bytes(headers@[k].name@)
                && h2_headers@[k].1@ == utf8(headers@[k].value@)) && http1_bytes@ == http1_response(
            status,
            utf8(body@),
            header_pairs(h2_headers@),
        ),
    }
}

/// Compiles a configured route action: a direct response needs a status in
/// 100..=599 and non-blank header names; its HTTP/1 bytes are built once.
pub fn compile_action(spec: &RouteActionSpec) -> (r: Result<RouteAction, ArcError>)
    ensures
        r is Ok <==> action_error(*spec) is None,
        r matches Ok(c) ==> action_compiled(*spec, c),
        r matches Err(e) ==> e is Config && action_error(*spec) == Some(e.config_msg()),
{
    match spec {
        RouteActionSpec::Forward => Ok(RouteAction::Forward),
        RouteActionSpec::Respond { status, body, headers } => {
            if *status < 100 || *status > 599 {
                let mut m = String::from_str("route action respond.status must be 100..=599, got ");
                append_decimal(&mut m, *status as u64);
                return Err(ArcError::config(m));
            }
            let mut h: Vec<(Vec<u8>, Vec<u8>)> = Vec::new();
            let mut k: usize = 0;
            while k < headers.len()
                invariant
                    k <= headers@.len(),
                    100 <= *status <= 599,
                    *spec == (RouteActionSpec::Respond { status: *status, body: *body, headers: *headers }),
                    h@.len() == k,
                    forall|j: int| 0 <= j < k ==> #[trigger] trimmed(headers@[j].name@).len() > 0,
                    forall|j: int|
                        0 <= j < k ==> #[trigger] h@[j].0@ == trimmed_bytes(headers@[j].name@) && h@[j].1@ == utf8(
                            headers@[j].value@,
                        ),
                decreases headers@.len() - k,
            {
                let name = trim_str(headers[k].name.as_str());
                if name.unicode_len() == 0 {
                    let e = config_error("route action respond.headers contains empty name");
                    proof {
                        assert(trimmed(headers@[k as int].name@).len() == 0);
                        assert(exists|j: int| 0 <= j < headers@.len() && #[trigger] trimmed(headers@[j].name@).len() == 0);
                        let sp = *spec;
                        assert(sp is Respond);
                        assert(sp->Respond_headers == *headers);
                        assert(sp->Respond_status == *status);
                        assert(!(sp->Respond_status < 100 || sp->Respond_status > 599));
                        assert(exists|j: int| 0 <= j < sp->Respond_headers@.len() && #[trigger] trimmed(sp->Respond_headers@[j].name@).len() == 0);
                        assert(action_error(*spec) == Some("route action respond.headers contains empty name"@));
                        assert(e.config_msg() == "route action respond.headers contains empty name"@);
                    }
                    return Err(e);
                }
                h.push((str_bytes(name), str_bytes(headers[k].value.as_str())));
                k = k + 1;
            }
            let b = str_bytes(body.as_str());
            let http1_bytes = build_http1_response_bytes(*status, b.as_slice(), h.as_slice());
            Ok(RouteAction::Respond { status: *status, http1_bytes, h2_body: b, h2_headers: h })
        },
    }
}

} // verus!
