//! Checks of a decoded request header list against the HTTP/2 rules, and
//! the request head it gives.
use vstd::prelude::*;

use crate::h2_down::RequestHead;
use crate::h2_error::{H2Code, H2Error};
use crate::h2_hpack::{header_pairs, Header};

verus! {

pub open spec fn name_method() -> Seq<u8> {
    seq![58u8, 109, 101, 116, 104, 111, 100]
}

pub open spec fn name_scheme() -> Seq<u8> {
    seq![58u8, 115, 99, 104, 101, 109, 101]
}

pub open spec fn name_authority() -> Seq<u8> {
    seq![58u8, 97, 117, 116, 104, 111, 114, 105, 116, 121]
}

pub open spec fn name_path() -> Seq<u8> {
    seq![58u8, 112, 97, 116, 104]
}

/// Header names that only make sense on an HTTP/1 connection.
pub open spec fn is_connection_specific(n: Seq<u8>) -> bool {
    ||| n == seq![99u8, 111, 110, 110, 101, 99, 116, 105, 111, 110]
    ||| n == seq![107u8, 101, 101, 112, 45, 97, 108, 105, 118, 101]
    ||| n == seq![112u8, 114, 111, 120, 121, 45, 99, 111, 110, 110, 101, 99, 116, 105, 111, 110]
    ||| n == seq![117u8, 112, 103, 114, 97, 100, 101]
}

pub open spec fn name_transfer_encoding() -> Seq<u8> {
    seq![116u8, 114, 97, 110, 115, 102, 101, 114, 45, 101, 110, 99, 111, 100, 105, 110, 103]
}

pub open spec fn name_te() -> Seq<u8> {
    seq![116u8, 101]
}

pub open spec fn value_trailers() -> Seq<u8> {
    seq![116u8, 114, 97, 105, 108, 101, 114, 115]
}

pub open spec fn method_connect() -> Seq<u8> {
    seq![67u8, 79, 78, 78, 69, 67, 84]
}

pub open spec fn has_upper(n: Seq<u8>) -> bool {
    exists|i: int| 0 <= i < n.len() && 65 <= #[trigger] n[i] <= 90
}

/// What the walk over a header list has gathered: whether a regular header
/// was seen, the four pseudo-headers, and the regular headers in order.
pub type HeadScan = (bool, Option<Seq<u8>>, Option<Seq<u8>>, Option<Seq<u8>>, Option<Seq<u8>>, Seq<(Seq<u8>, Seq<u8>)>);

/// One header of the walk: names must be lower case; pseudo-headers come
/// first and must be one of the four request ones (a repeated one replaces
/// the earlier value); connection-specific headers and transfer-encoding are
/// refused, and TE may only say "trailers".
pub open spec fn head_step(st: HeadScan, h: (Seq<u8>, Seq<u8>)) -> Result<HeadScan, Seq<char>> {
    let name = h.0;
    let value = h.1;
    if has_upper(name) {
        Err("uppercase header name"@)
    } else if name.len() > 0 && name[0] == 58 {
        if st.0 {
            Err("pseudo-header after regular header"@)
        } else if name == name_method() {
            Ok((st.0, Some(value), st.2, st.3, st.4, st.5))
        } else if name == name_scheme() {
            Ok((st.0, st.1, Some(value), st.3, st.4, st.5))
        } else if name == name_authority() {
            Ok((st.0, st.1, st.2, Some(value), st.4, st.5))
        } else if name == name_path() {
            Ok((st.0, st.1, st.2, st.3, Some(value), st.5))
        } else {
            Err("unknown pseudo header"@)
        }
    } else if is_connection_specific(name) {
        Err("connection-specific header in h2"@)
    } else if name == name_transfer_encoding() {
        Err("transfer-encoding forbidden in h2"@)
    } else if name == name_te() && value != value_trailers() {
        Err("TE must be trailers"@)
    } else {
        Ok((true, st.1, st.2, st.3, st.4, st.5.push(h)))
    }
}

/// The walk over a whole header list; the first refused header stops it.
pub open spec fn head_scan(hs: Seq<(Seq<u8>, Seq<u8>)>) -> Result<HeadScan, Seq<char>>
    decreases hs.len(),
{
    if hs.len() == 0 {
        Ok((false, None, None, None, None, Seq::empty()))
    } else {
        match head_scan(hs.drop_last()) {
            Err(m) => Err(m),
            Ok(st) => head_step(st, hs.last()),
        }
    }
}

/// The request a header list describes, or why it is refused: a method is
/// required; CONNECT needs an authority, every other method a scheme and a
/// path starting with '/'.
pub open spec fn request_of(hs: Seq<(Seq<u8>, Seq<u8>)>) -> Result<HeadScan, Seq<char>> {
    match head_scan(hs) {
        Err(m) => Err(m),
        Ok(st) => match st.1 {
            None => Err("missing :method"@),
            Some(m) => if m == method_connect() {
                if st.3 is None {
                    Err("CONNECT missing :authority"@)
                } else {
                    Ok(st)
                }
            } else if st.2 is None {
                Err("missing :scheme"@)
            } else if st.4 is None {
                Err("missing :path"@)
            } else if !(st.4.unwrap().len() > 0 && st.4.unwrap()[0] == 47) {
                Err(":path must start with '/'"@)
            } else {
                Ok(st)
            },
        },
    }
}

/// Once the walk refuses a header, the whole list is refused the same way.
pub proof fn lemma_scan_refusal_sticks(hs: Seq<(Seq<u8>, Seq<u8>)>, k: int)
    requires
        0 <= k <= hs.len(),
        head_scan(hs.take(k)) is Err,
    ensures
        head_scan(hs) == head_scan(hs.take(k)),
    decreases hs.len() - k,
{
    if k < hs.len() {
        assert(hs.take(k + 1).drop_last() =~= hs.take(k));
        lemma_scan_refusal_sticks(hs, k + 1);
    } else {
        assert(hs.take(k) =~= hs);
    }
}

pub open spec fn opt_view(o: Option<Vec<u8>>) -> Option<Seq<u8>> {
    match o {
        Some(v) => Some(v@),
        None => None,
    }
}

fn lit(bytes: &[u8]) -> (r: Vec<u8>)
    ensures
        r@ == bytes@,
{
    let mut out: Vec<u8> = Vec::new();
    let mut i: usize = 0;
    while i < bytes.len()
        invariant
            i <= bytes.len(),
            out@ == bytes@.take(i as int),
        decreases bytes.len() - i,
    {
        out.push(bytes[i]);
        i = i + 1;
        proof {
            assert(out@ =~= bytes@.take(i as int));
        }
    }
    proof {
        assert(bytes@.take(i as int) =~= bytes@);
    }
    out
}

pub(crate) fn eq_lit(a: &[u8], b: &[u8]) -> (r: bool)
    ensures
        r == (a@ == b@),
{
    crate::ascii::bytes_eq(a, b)
}

fn any_upper(n: &[u8]) -> (r: bool)
    ensures
        r == has_upper(n@),
{
    let mut i: usize = 0;
    while i < n.len()
        invariant
            i <= n.len(),
            forall|j: int| 0 <= j < i ==> !(65 <= #[trigger] n@[j] <= 90),
        decreases n.len() - i,
    {
        if 65 <= n[i] && n[i] <= 90 {
            return true;
        }
        i = i + 1;
    }
    false
}

pub(crate) fn copy_bytes(v: &Vec<u8>) -> (r: Vec<u8>)
    ensures
        r@ == v@,
{
    lit(v.as_slice())
}

/// Checks a decoded request header list and builds the request head: the
/// pseudo-headers picked out, the regular headers kept in order.  Every
/// refusal is a protocol error naming the rule.
pub fn validate_and_build_request(headers: Vec<Header>) -> (r: Result<RequestHead, H2Error>)
    ensures
        match request_of(header_pairs(headers@)) {
            Err(m) => r matches Err(e) && e.code == H2Code::ProtocolError && e.message@ == m,
            Ok(st) => r matches Ok(h) && h.method@ == st.1.unwrap() && opt_view(h.scheme) == st.2
                && opt_view(h.authority) == st.3 && opt_view(h.path) == st.4 && header_pairs(h.headers@)
                == st.5,
        },
{
    let ghost hs = header_pairs(headers@);
    let mut saw_regular = false;
    let mut method: Option<Vec<u8>> = None;
    let mut scheme: Option<Vec<u8>> = None;
    let mut authority: Option<Vec<u8>> = None;
    let mut path: Option<Vec<u8>> = None;
    let mut out: Vec<Header> = Vec::new();
    let mut i: usize = 0;
    proof {
        assert(hs.take(0) =~= Seq::<(Seq<u8>, Seq<u8>)>::empty());
        assert(header_pairs(out@) =~= Seq::<(Seq<u8>, Seq<u8>)>::empty());
    }
    while i < headers.len()
        invariant
            i <= headers.len(),
            hs == header_pairs(headers@),
            head_scan(hs.take(i as int)) == Ok::<HeadScan, Seq<char>>(
                (saw_regular, opt_view(method), opt_view(scheme), opt_view(authority), opt_view(path), header_pairs(out@)),
            ),
        decreases headers.len() - i,
    {
        let name = copy_bytes(&headers[i].name);
        let value = copy_bytes(&headers[i].value);
        proof {
            assert(hs.take(i as int + 1).drop_last() =~= hs.take(i as int));
            assert(hs.take(i as int + 1).last() == (name@, value@));
            if head_scan(hs.take(i as int + 1)) is Err {
                lemma_scan_refusal_sticks(hs, i as int + 1);
            }
        }
        if any_upper(name.as_slice()) {
            return Err(H2Error::new(H2Code::ProtocolError, "uppercase header name"));
        }
        if name.len() > 0 && name[0] == 58 {
            if saw_regular {
                return Err(H2Error::new(H2Code::ProtocolError, "pseudo-header after regular header"));
            }
            if eq_lit(name.as_slice(), &[58u8, 109, 101, 116, 104, 111, 100]) {
                method = Some(value);
            } else if eq_lit(name.as_slice(), &[58u8, 115, 99, 104, 101, 109, 101]) {
                scheme = Some(value);
            } else if eq_lit(name.as_slice(), &[58u8, 97, 117, 116, 104, 111, 114, 105, 116, 121]) {
                authority = Some(value);
            } else if eq_lit(name.as_slice(), &[58u8, 112, 97, 116, 104]) {
                path = Some(value);
            } else {
                return Err(H2Error::new(H2Code::ProtocolError, "unknown pseudo header"));
            }
        } else {
            saw_regular = true;
            if eq_lit(name.as_slice(), &[99u8, 111, 110, 110, 101, 99, 116, 105, 111, 110])
                || eq_lit(name.as_slice(), &[107u8, 101, 101, 112, 45, 97, 108, 105, 118, 101])
                || eq_lit(name.as_slice(), &[112u8, 114, 111, 120, 121, 45, 99, 111, 110, 110, 101, 99, 116, 105, 111, 110])
                || eq_lit(name.as_slice(), &[117u8, 112, 103, 114, 97, 100, 101]) {
                return Err(H2Error::new(H2Code::ProtocolError, "connection-specific header in h2"));
            }
            if eq_lit(name.as_slice(), &[116u8, 114, 97, 110, 115, 102, 101, 114, 45, 101, 110, 99, 111, 100, 105, 110, 103]) {
                return Err(H2Error::new(H2Code::ProtocolError, "transfer-encoding forbidden in h2"));
            }
            if eq_lit(name.as_slice(), &[116u8, 101]) && !eq_lit(value.as_slice(), &[116u8, 114, 97, 105, 108, 101, 114, 115]) {
                return Err(H2Error::new(H2Code::ProtocolError, "TE must be trailers"));
            }
            let ghost before = out@;
            out.push(Header { name, value });
            proof {
                assert(header_pairs(out@) =~= header_pairs(before).push(hs[i as int]));
            }
        }
        i = i + 1;
    }
    proof {
        assert(hs.take(i as int) =~= hs);
    }
    let m = match method {
        Some(m) => m,
        None => {
            return Err(H2Error::new(H2Code::ProtocolError, "missing :method"));
        },
    };
    if eq_lit(m.as_slice(), &[67u8, 79, 78, 78, 69, 67, 84]) {
        if authority.is_none() {
            return Err(H2Error::new(H2Code::ProtocolError, "CONNECT missing :authority"));
        }
    } else {
        if scheme.is_none() {
            return Err(H2Error::new(H2Code::ProtocolError, "missing :scheme"));
        }
        match &path {
            Some(p) => {
                if !(p.len() > 0 && p[0] == 47) {
                    return Err(H2Error::new(H2Code::ProtocolError, ":path must start with '/'"));
                }
            },
            None => {
                return Err(H2Error::new(H2Code::ProtocolError, "missing :path"));
            },
        }
    }
    Ok(RequestHead { method: m, scheme, authority, path, headers: out })
}

} // verus!
