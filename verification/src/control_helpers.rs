use vstd::prelude::*;
use vstd::string::StrSliceExecFns;
use vstd::string::StringSliceAdditionalSpecFns;
use crate::text::{trimmed, trim_str, utf8, u64_from_bytes, parse_u64, append_decimal, dec_chars};
use crate::ascii::{pos_from, find_byte, lemma_pos_from};
use crate::trace::{hex_digit, hex_digit_str};

verus! {

/// Role of a node in the control plane.
#[derive(Clone, Copy, Debug, PartialEq, Eq, Structural)]
pub enum ControlRole {
    Standalone,
    Leader,
    Follower,
}

/// The name a role is reported under.
pub open spec fn role_name(role: ControlRole) -> &'static str {
    match role {
        ControlRole::Standalone => "standalone",
        ControlRole::Leader => "leader",
        ControlRole::Follower => "follower",
    }
}

pub fn role_str(role: ControlRole) -> (r: &'static str)
    ensures
        r@ == role_name(role)@,
{
    match role {
        ControlRole::Standalone => "standalone",
        ControlRole::Leader => "leader",
        ControlRole::Follower => "follower",
    }
}

/// The ETag of a config generation: the number in quotes.
pub fn etag_value(gen: u64) -> (r: String)
    ensures
        r@ == "\""@ + dec_chars(gen as nat) + "\""@,
{
    let mut s = String::from_str("\"");
    append_decimal(&mut s, gen);
    s.append("\"");
    s
}

/// A byte `HeaderValue::to_str` accepts: visible ASCII or a tab.
pub open spec fn visible_byte(b: u8) -> bool {
    (32 <= b && b < 127) || b == 0x09u8
}

/// `s` without leading and trailing ASCII white space (a byte string that
/// is visible ASCII trims as text does).
pub open spec fn trim_ascii(s: Seq<u8>) -> Seq<u8> {
    crate::ascii::trim_ws(s)
}

/// `s` without its leading and trailing `"` characters.
pub open spec fn trim_quotes(s: Seq<u8>) -> Seq<u8>
    decreases s.len(),
{
    if s.len() > 0 && s[0] == 0x22u8 {
        trim_quotes(s.drop_first())
    } else if s.len() > 0 && s.last() == 0x22u8 {
        trim_quotes(s.drop_last())
    } else {
        s
    }
}

/// The generation in an `If-None-Match` value: visible ASCII, trimmed,
/// quotes removed, a `u64`.
pub open spec fn etag_generation(v: Option<Seq<u8>>) -> Option<u64> {
    match v {
        None => None,
        Some(b) => if forall|i: int| 0 <= i < b.len() ==> #[trigger] visible_byte(b[i]) {
            u64_from_bytes(trim_quotes(trim_ascii(b)))
        } else {
            None
        },
    }
}

fn strip_quotes(s: &[u8]) -> (r: &[u8])
    ensures
        r@ == trim_quotes(s@),
    decreases s@.len(),
{
    if s.len() > 0 && s[0] == 0x22u8 {
        let t = vstd::slice::slice_subrange(s, 1, s.len());
        proof {
            assert(t@ =~= s@.drop_first());
        }
        strip_quotes(t)
    } else if s.len() > 0 && s[s.len() - 1] == 0x22u8 {
        let t = vstd::slice::slice_subrange(s, 0, s.len() - 1);
        proof {
            assert(t@ =~= s@.drop_last());
        }
        strip_quotes(t)
    } else {
        s
    }
}

/// Parses the config generation out of an `If-None-Match` header value.
pub fn parse_etag_u64(v: Option<&[u8]>) -> (r: Option<u64>)
    ensures
        r == etag_generation(match v {
            Some(b) => Some(b@),
            None => None::<Seq<u8>>,
        }),
{
    let b = match v {
        Some(b) => b,
        None => {
            return None;
        },
    };
    let mut i: usize = 0;
    while i < b.len()
        invariant
            i <= b@.len(),
            v == Some(b),
            forall|j: int| 0 <= j < i ==> #[trigger] visible_byte(b@[j]),
        decreases b@.len() - i,
    {
        let c = b[i];
        if !((32 <= c && c < 127) || c == 0x09u8) {
            proof {
                assert(!visible_byte(b@[i as int]));
                assert(!(forall|j: int| 0 <= j < b@.len() ==> #[trigger] visible_byte(b@[j])));
            }
            return None;
        }
        i = i + 1;
    }
    let t = crate::ascii::trim_ascii_ws(b);
    parse_u64(strip_quotes(t))
}

/// The value of the first `key=value` pair named `key` in the `&`-separated
/// pairs from `i` on, as a `u64` (`None` if it is not one).
pub open spec fn query_u64_from(q: Seq<u8>, key: Seq<u8>, i: int) -> Option<u64>
    decreases q.len() + 1 - i,
{
    if i < 0 || i > q.len() {
        None
    } else {
        let j = pos_from(q, 0x26u8, i);
        let kv = q.subrange(i, j);
        let e = pos_from(kv, 0x3Du8, 0);
        let k = kv.take(e);
        let v = if e < kv.len() { kv.skip(e + 1) } else { Seq::empty() };
        if k == key {
            u64_from_bytes(v)
        } else if j >= q.len() || j + 1 <= i {
            None
        } else {
            query_u64_from(q, key, j + 1)
        }
    }
}

/// The `u64` value of query parameter `key` (its first occurrence decides).
pub fn parse_query_u64(query: &str, key: &str) -> (r: Option<u64>)
    ensures
        r == query_u64_from(utf8(query@), utf8(key@), 0),
{
    let q = query.as_bytes();
    let kb = key.as_bytes();
    let mut i: usize = 0;
    while i <= q.len()
        invariant
            i <= q@.len() + 1,
            q@ == utf8(query@),
            kb@ == utf8(key@),
            i <= q@.len() ==> query_u64_from(q@, kb@, 0) == query_u64_from(q@, kb@, i as int),
            i > q@.len() ==> query_u64_from(q@, kb@, 0) is None,
        decreases q@.len() + 1 - i,
    {
        let j = find_byte(q, 0x26u8, i);
        proof {
            lemma_pos_from(q@, 0x26u8, i as int);
        }
        let kv = vstd::slice::slice_subrange(q, i, j);
        let e = find_byte(kv, 0x3Du8, 0);
        proof {
            lemma_pos_from(kv@, 0x3Du8, 0);
        }
        let k = vstd::slice::slice_subrange(kv, 0, e);
        if crate::ascii::bytes_eq(k, kb) {
            if e < kv.len() {
                let v = vstd::slice::slice_subrange(kv, e + 1, kv.len());
                proof {
                    assert(v@ =~= kv@.skip(e + 1));
                }
                return parse_u64(v);
            } else {
                let v = vstd::slice::slice_subrange(kv, 0, 0);
                proof {
                    assert(v@ =~= Seq::<u8>::empty());
                }
                return parse_u64(v);
            }
        }
        if j >= q.len() {
            return None;
        }
        i = j + 1;
    }
    None
}

/// An ASCII control character or a C1 control (`char::is_control`).
pub open spec fn is_control_char(c: char) -> bool {
    (c as u32) <= 0x1F || (0x7F <= (c as u32) && (c as u32) <= 0x9F)
}

/// The JSON escape of one character.
pub open spec fn escape_char(c: char) -> Seq<char> {
    if c == '"' {
        seq!['\\', '"']
    } else if c == '\\' {
        seq!['\\', '\\']
    } else if c == '\n' {
        seq!['\\', 'n']
    } else if c == '\r' {
        seq!['\\', 'r']
    } else if c == '\t' {
        seq!['\\', 't']
    } else if is_control_char(c) {
        let n = c as u32;
        seq![
            '\\',
            'u',
            hex_digit(((n >> 12u32) & 0xFu32) as u8),
            hex_digit(((n >> 8u32) & 0xFu32) as u8),
            hex_digit(((n >> 4u32) & 0xFu32) as u8),
            hex_digit((n & 0xFu32) as u8),
        ]
    } else {
        seq![c]
    }
}

/// The JSON escape of a string, character by character.
pub open spec fn escape_str(s: Seq<char>) -> Seq<char>
    decreases s.len(),
{
    if s.len() == 0 { Seq::empty() } else { escape_str(s.drop_last()) + escape_char(s.last()) }
}

/// Escapes a string for a JSON string literal.
pub fn escape_json(s: &str) -> (r: String)
    ensures
        r@ == escape_str(s@),
{
    let mut out = String::new();
    let n = s.unicode_len();
    let mut i: usize = 0;
    proof {
        reveal_strlit("\\\"");
        reveal_strlit("\\\\");
        reveal_strlit("\\n");
        reveal_strlit("\\r");
        reveal_strlit("\\t");
        reveal_strlit("\\u");
        assert("\\\""@ =~= seq!['\\', '"']);
        assert("\\\\"@ =~= seq!['\\', '\\']);
        assert("\\n"@ =~= seq!['\\', 'n']);
        assert("\\r"@ =~= seq!['\\', 'r']);
        assert("\\t"@ =~= seq!['\\', 't']);
        assert("\\u"@ =~= seq!['\\', 'u']);
    }
    while i < n
        invariant
            n == s@.len(),
            i <= n,
            out@ == escape_str(s@.take(i as int)),
            "\\\""@ =~= seq!['\\', '"'],
            "\\\\"@ =~= seq!['\\', '\\'],
            "\\n"@ =~= seq!['\\', 'n'],
            "\\r"@ =~= seq!['\\', 'r'],
            "\\t"@ =~= seq!['\\', 't'],
            "\\u"@ =~= seq!['\\', 'u'],
        decreases n - i,
    {
        let c = s.get_char(i);
        let ghost before = out@;
        if c == '"' {
            out.append("\\\"");
        } else if c == '\\' {
            out.append("\\\\");
        } else if c == '\n' {
            out.append("\\n");
        } else if c == '\r' {
            out.append("\\r");
        } else if c == '\t' {
            out.append("\\t");
        } else if (c as u32) <= 0x1F || (0x7F <= (c as u32) && (c as u32) <= 0x9F) {
            let code = c as u32;
            out.append("\\u");
            proof {
                assert((code >> 12u32) & 0xFu32 < 16) by (bit_vector);
                assert((code >> 8u32) & 0xFu32 < 16) by (bit_vector);
                assert((code >> 4u32) & 0xFu32 < 16) by (bit_vector);
                assert(code & 0xFu32 < 16) by (bit_vector);
            }
            out.append(hex_digit_str(((code >> 12u32) & 0xFu32) as u8));
            out.append(hex_digit_str(((code >> 8u32) & 0xFu32) as u8));
            out.append(hex_digit_str(((code >> 4u32) & 0xFu32) as u8));
            out.append(hex_digit_str((code & 0xFu32) as u8));
        } else {
            out.append(s.substring_char(i, i + 1));
        }
        proof {
            let t = s@.take(i as int + 1);
            assert(t.drop_last() =~= s@.take(i as int));
            assert(t.last() == c);
            assert(out@ =~= before + escape_char(c));
        }
        i = i + 1;
    }
    proof {
        assert(s@.take(n as int) =~= s@);
    }
    out
}

/// Appends `path: old -> new` to `out` (`<root>` for the empty path), or
/// marks the list truncated when it already holds `limit` lines.
pub fn push_diff_line(path: &str, old_repr: &str, new_repr: &str, limit: usize, out: &mut Vec<String>, truncated: &mut bool)
    ensures
        old(out)@.len() >= limit ==> *final(truncated) && final(out)@ == old(out)@,
        old(out)@.len() < limit ==> *final(truncated) == *old(truncated) && final(out)@.len() == old(out)@.len() + 1
            && final(out)@.take(old(out)@.len() as int) == old(out)@ && final(out)@.last()@ == (if path@.len() == 0 {
            "<root>"@
        } else {
            path@
        }) + ": "@ + old_repr@ + " -> "@ + new_repr@,
{
    if out.len() >= limit {
        *truncated = true;
        return ;
    }
    let p = if path.unicode_len() == 0 { "<root>" } else { path };
    let mut line = String::from_str(p);
    line.append(": ");
    line.append(old_repr);
    line.append(" -> ");
    line.append(new_repr);
    out.push(line);
    proof {
        assert(out@.take(old(out)@.len() as int) =~= old(out)@);
    }
}

/// What an XDP block entry was added for.
#[derive(Clone, Copy, Debug, PartialEq, Eq, Structural)]
pub enum BlockReason {
    Unknown,
    SynFlood,
    AckFlood,
    RstInvalid,
    UdpRateLimit,
    Manual,
}

/// ASCII lower case of a character.
pub open spec fn lower_char(c: char) -> char {
    if 'A' <= c && c <= 'Z' { ((c as u8) + 32u8) as char } else { c }
}

/// A block reason as typed: trimmed, ASCII lower case, `-` read as `_`.
pub open spec fn reason_key(v: Seq<char>) -> Seq<char> {
    trimmed(v).map_values(|c: char| if lower_char(c) == '-' { '_' } else { lower_char(c) })
}

/// The reason a typed name stands for; anything unknown is a manual block.
pub open spec fn reason_of(v: Seq<char>) -> BlockReason {
    let k = reason_key(v);
    if k == "syn_flood"@ {
        BlockReason::SynFlood
    } else if k == "ack_flood"@ {
        BlockReason::AckFlood
    } else if k == "rst_invalid"@ || k == "rst_flood"@ {
        BlockReason::RstInvalid
    } else if k == "udp_rate_limit"@ {
        BlockReason::UdpRateLimit
    } else {
        BlockReason::Manual
    }
}

fn chars_eq(a: &Vec<char>, b: &str) -> (r: bool)
    ensures
        r == (a@ == b@),
{
    let n = b.unicode_len();
    if a.len() != n {
        return false;
    }
    let mut i: usize = 0;
    while i < n
        invariant
            n == b@.len(),
            a@.len() == n,
            i <= n,
            forall|j: int| 0 <= j < i ==> a@[j] == b@[j],
        decreases n - i,
    {
        if a[i] != b.get_char(i) {
            return false;
        }
        i = i + 1;
    }
    assert(a@ =~= b@);
    true
}

/// Reads a block reason typed by an operator.
pub fn parse_block_reason(v: &str) -> (r: BlockReason)
    ensures
        r == reason_of(v@),
{
    let t = trim_str(v);
    let n = t.unicode_len();
    let mut k: Vec<char> = Vec::new();
    let mut i: usize = 0;
    while i < n
        invariant
            n == t@.len(),
            i <= n,
            k@ == t@.take(i as int).map_values(|c: char| if lower_char(c) == '-' { '_' } else { lower_char(c) }),
        decreases n - i,
    {
        let c = t.get_char(i);
        let l = if 'A' <= c && c <= 'Z' { ((c as u8) + 32u8) as char } else { c };
        k.push(if l == '-' { '_' } else { l });
        proof {
            assert(t@.take(i as int + 1) =~= t@.take(i as int).push(c));
        }
        i = i + 1;
    }
    proof {
        assert(t@.take(n as int) =~= t@);
    }
    if chars_eq(&k, "syn_flood") {
        BlockReason::SynFlood
    } else if chars_eq(&k, "ack_flood") {
        BlockReason::AckFlood
    } else if chars_eq(&k, "rst_invalid") || chars_eq(&k, "rst_flood") {
        BlockReason::RstInvalid
    } else if chars_eq(&k, "udp_rate_limit") {
        BlockReason::UdpRateLimit
    } else {
        BlockReason::Manual
    }
}

/// The name a block reason is reported under.
pub open spec fn reason_name(v: BlockReason) -> &'static str {
    match v {
        BlockReason::Unknown => "unknown",
        BlockReason::SynFlood => "syn_flood",
        BlockReason::AckFlood => "ack_flood",
        BlockReason::RstInvalid => "rst_invalid",
        BlockReason::UdpRateLimit => "udp_rate_limit",
        BlockReason::Manual => "manual",
    }
}

pub fn block_reason_to_str(v: BlockReason) -> (r: &'static str)
    ensures
        r@ == reason_name(v)@,
{
    match v {
        BlockReason::Unknown => "unknown",
        BlockReason::SynFlood => "syn_flood",
        BlockReason::AckFlood => "ack_flood",
        BlockReason::RstInvalid => "rst_invalid",
        BlockReason::UdpRateLimit => "udp_rate_limit",
        BlockReason::Manual => "manual",
    }
}


/// What `http::Uri` makes of a string, when it parses and has an authority:
/// the authority and the scheme (if any).
pub uninterp spec fn uri_authority(s: Seq<char>) -> Option<(Seq<char>, Option<Seq<char>>)>;

/// The text of an optional string.
pub open spec fn opt_text(o: Option<String>) -> Option<Seq<char>> {
    match o {
        Some(x) => Some(x@),
        None => None,
    }
}

/// `s.parse::<http::Uri>()`, then its authority and scheme as text; `None`
/// when it does not parse or has no authority. Depends on the text alone.
#[verifier::external_body]
fn parse_uri_authority(s: &str) -> (r: Option<(String, Option<String>)>)
    ensures
        r matches Some((a, sc)) ==> uri_authority(s@) == Some((a@, opt_text(sc))),
        r is None ==> uri_authority(s@) is None,
{
    match s.parse::<http::Uri>() {
        Ok(u) => match u.authority() {
            Some(a) => Some((a.as_str().to_string(), u.scheme_str().map(|x| x.to_string()))),
            None => None,
        },
        Err(_) => None,
    }
}

/// First index at or after `i` where `s` holds `c`, or `s.len()`.
pub open spec fn char_pos(s: Seq<char>, c: char, i: int) -> int
    decreases s.len() - i,
{
    if i < 0 || i >= s.len() {
        s.len() as int
    } else if s[i] == c {
        i
    } else {
        char_pos(s, c, i + 1)
    }
}

/// First index at or after `i` where `s` holds `://`, or `s.len()`.
pub open spec fn sep_pos(s: Seq<char>, i: int) -> int
    decreases s.len() - i,
{
    if i < 0 || i + 3 > s.len() {
        s.len() as int
    } else if s[i] == ':' && s[i + 1] == '/' && s[i + 2] == '/' {
        i
    } else {
        sep_pos(s, i + 1)
    }
}

/// `s` without its trailing slashes.
pub open spec fn strip_slashes(s: Seq<char>) -> Seq<char>
    decreases s.len(),
{
    if s.len() > 0 && s.last() == '/' { strip_slashes(s.drop_last()) } else { s }
}

/// An endpoint trimmed, given `http://` when it has no scheme, and without
/// trailing slashes.
pub open spec fn endpoint_base(input: Seq<char>) -> Seq<char> {
    let t = trimmed(input);
    strip_slashes(if sep_pos(t, 0) < t.len() { t } else { "http://"@ + t })
}

/// The endpoint cut at the first `/` after the scheme separator (or at the
/// first `/` when there is none).
pub open spec fn endpoint_fallback(s: Seq<char>) -> Seq<char> {
    let p = sep_pos(s, 0);
    let q = if p < s.len() { char_pos(s, '/', p + 3) } else { char_pos(s, '/', 0) };
    if q < s.len() { s.take(q) } else { s }
}

/// `scheme://authority` of an endpoint (scheme `http` by default) when it
/// parses as a URI with an authority, else the cut fallback.
pub open spec fn normalized_endpoint(input: Seq<char>) -> Seq<char> {
    let s = endpoint_base(input);
    match uri_authority(s) {
        Some((auth, scheme)) => (match scheme {
            Some(x) => x,
            None => "http"@,
        }) + "://"@ + auth,
        None => endpoint_fallback(s),
    }
}

proof fn lemma_char_pos(s: Seq<char>, c: char, i: int)
    requires
        0 <= i <= s.len(),
    ensures
        i <= char_pos(s, c, i) <= s.len(),
    decreases s.len() - i,
{
    if i < s.len() && s[i] != c {
        lemma_char_pos(s, c, i + 1);
    }
}

fn find_char(s: &str, c: char, from: usize) -> (r: usize)
    requires
        from <= s@.len(),
    ensures
        r == char_pos(s@, c, from as int),
{
    let n = s.unicode_len();
    let mut i = from;
    while i < n && s.get_char(i) != c
        invariant
            n == s@.len(),
            from <= i <= n,
            char_pos(s@, c, from as int) == char_pos(s@, c, i as int),
        decreases n - i,
    {
        i = i + 1;
    }
    i
}

fn find_sep(s: &str) -> (r: usize)
    ensures
        r == sep_pos(s@, 0),
        r <= s@.len(),
        r < s@.len() ==> r + 3 <= s@.len(),
{
    let n = s.unicode_len();
    let mut i: usize = 0;
    while i < n && n - i >= 3 && !(s.get_char(i) == ':' && s.get_char(i + 1) == '/' && s.get_char(i + 2) == '/')
        invariant
            n == s@.len(),
            i <= n,
            sep_pos(s@, 0) == sep_pos(s@, i as int),
        decreases n - i,
    {
        i = i + 1;
    }
    if i < n && n - i >= 3 { i } else { n }
}

/// Finishes a normalized endpoint from what URI parsing gave: with an
/// authority, `scheme://authority` (`http` by default); without, `s` cut
/// at the first path slash.
pub fn finish_endpoint(s: &str, parsed: Option<(String, Option<String>)>) -> (r: String)
    ensures
        r@ == match parsed {
            Some((a, sc)) => (match opt_text(sc) {
                Some(x) => x,
                None => "http"@,
            }) + "://"@ + a@,
            None => endpoint_fallback(s@),
        },
{
    match parsed {
        Some((a, sc)) => {
            let mut out = match sc {
                Some(x) => x,
                None => String::from_str("http"),
            };
            out.append("://");
            out.append(a.as_str());
            out
        },
        None => {
            let n = s.unicode_len();
            let p = find_sep(s);
            let q = if p < n {
                proof {
                    lemma_char_pos(s@, '/', p + 3);
                }
                find_char(s, '/', p + 3)
            } else {
                proof {
                    lemma_char_pos(s@, '/', 0);
                }
                find_char(s, '/', 0)
            };
            if q < n {
                proof {
                    assert(s@.subrange(0, q as int) =~= s@.take(q as int));
                }
                String::from_str(s.substring_char(0, q))
            } else {
                String::from_str(s)
            }
        },
    }
}

/// Normalizes a peer endpoint to `scheme://host:port`.
pub fn normalize_endpoint(input: &str) -> (r: String)
    ensures
        r@ == normalized_endpoint(input@),
{
    let t = trim_str(input);
    let mut s = if find_sep(t) < t.unicode_len() {
        String::from_str(t)
    } else {
        let mut x = String::from_str("http://");
        x.append(t);
        x
    };
    let st = s.as_str();
    let mut k = st.unicode_len();
    proof {
        assert(st@.take(k as int) =~= st@);
    }
    while k > 0 && st.get_char(k - 1) == '/'
        invariant
            k <= st@.len(),
            strip_slashes(st@) == strip_slashes(st@.take(k as int)),
        decreases k,
    {
        proof {
            assert(st@.take(k as int).drop_last() =~= st@.take(k as int - 1));
        }
        k = k - 1;
    }
    let base = st.substring_char(0, k);
    proof {
        assert(base@ =~= st@.take(k as int));
    }
    let parsed = parse_uri_authority(base);
    finish_endpoint(base, parsed)
}

} // verus!
