use vstd::prelude::*;
use std::sync::Arc;
use std::time::Duration;
use crate::arc_error::ArcError;
use crate::text::{trimmed, trim_str, str_bytes, utf8};
use vstd::string::StrSliceExecFns;
use vstd::string::StringSliceAdditionalSpecFns;

verus! {

/// `regex::bytes::Regex`, carried through as an opaque compiled pattern.
#[verifier::external_type_specification]
#[verifier::external_body]
pub struct ExBytesRegex(regex::bytes::Regex);

/// `regex::Error`, the reason a pattern does not compile.
#[verifier::external_type_specification]
#[verifier::external_body]
pub struct ExRegexError(regex::Error);

/// Whether `regex::bytes::Regex::new` accepts the pattern.
pub uninterp spec fn regex_accepts(pattern: Seq<char>) -> bool;

/// `regex::bytes::Regex::new`: compiles a pattern; it succeeds exactly on
/// the patterns `regex_accepts` names, and depends on the pattern alone.
#[verifier::external_body]
fn regex_new(pattern: &str) -> (r: Result<regex::bytes::Regex, regex::Error>)
    ensures
        r is Ok <==> regex_accepts(pattern@),
{
    regex::bytes::Regex::new(pattern)
}

/// The text of a regex error, as its `Display` writes it.
#[verifier::external_body]
fn regex_error_text(e: &regex::Error) -> String {
    format!("{e}")
}

/// What `Duration::as_nanos` gives for `d`: its whole nanoseconds.
pub uninterp spec fn nanos_of(d: Duration) -> u128;

/// What `Duration::from_millis` gives for `ms`: that many milliseconds.
pub uninterp spec fn millis_duration(ms: u64) -> Duration;

/// What `Duration::as_secs` gives for `d`: its whole seconds.
pub uninterp spec fn secs_of(d: Duration) -> u64;

/// The whole nanoseconds of a duration (`Duration::as_nanos`, a function of
/// the duration alone; named, not modelled); its whole seconds are the
/// nanoseconds divided by 10^9, as `as_secs` gives them.
#[verifier::external_body]
fn duration_nanos(d: &Duration) -> (r: u128)
    ensures
        r == nanos_of(*d),
        r / 1_000_000_000 == secs_of(*d),
{
    d.as_nanos()
}

/// A duration of `ms` milliseconds (`Duration::from_millis`, which cannot
/// fail; named, not modelled): `ms` times 10^6 nanoseconds, `ms / 1000`
/// whole seconds.
#[verifier::external_body]
pub(crate) fn duration_from_millis(ms: u64) -> (r: Duration)
    ensures
        r == millis_duration(ms),
        nanos_of(r) == ms * 1_000_000,
        secs_of(r) == ms / 1000,
{
    Duration::from_millis(ms)
}

/// Weighted traffic split of a route over several upstreams.
#[derive(Clone, Debug)]
pub struct TrafficSplitConfig {
    pub choices: Vec<TrafficChoice>,
    pub key: SplitKey,
}

/// Load balancing asked for in the configuration.
#[derive(Clone, Copy, Debug, PartialEq, Eq, Structural)]
pub enum LoadBalanceConfig {
    Random,
    Weighted,
    Hash,
    RoundRobin,
}

/// One upstream of a split, with its weight.
#[derive(Clone, Debug)]
pub struct TrafficChoice {
    pub upstream: String,
    pub weight: u32,
}

/// What a split hashes on.
#[derive(Clone, Debug)]
pub enum SplitKey {
    Random,
    Path,
    Host,
    Header { name: String },
    Cookie { name: String },
}

impl Default for SplitKey {
    fn default() -> (r: Self)
        ensures
            r is Path,
    {
        SplitKey::Path
    }
}

/// Path rewrite: a pattern and its replacement.
#[derive(Clone, Debug)]
pub struct RewriteRule {
    pub pattern: String,
    pub replace: String,
}

/// A change to request headers as configured.
#[derive(Clone, Debug)]
pub enum HeaderMutation {
    Add { name: String, value: String },
    /// Replaces every value of the header (configured as `set`).
    Replace { name: String, value: String },
    Remove { name: String },
}

/// Retry settings as configured.
#[derive(Clone, Copy, Debug)]
pub struct RetryPolicy {
    pub max_retries: u32,
    pub backoff: Duration,
    pub idempotent_only: bool,
}

impl Default for RetryPolicy {
    /// One retry, 50 ms backoff, idempotent requests only.
    fn default() -> (r: Self)
        ensures
            r.max_retries == 1,
            r.idempotent_only,
            r.backoff == millis_duration(50),
    {
        RetryPolicy { max_retries: 1, backoff: duration_from_millis(50), idempotent_only: true }
    }
}

/// Where a route sends its requests.
#[derive(Clone, Debug)]
pub enum RouteUpstreams {
    /// The route does not forward.
    Unrouted,
    Single { upstream_id: usize },
    Split(Arc<CompiledSplit>),
}

/// A compiled weighted split.
#[derive(Clone, Debug)]
pub struct CompiledSplit {
    pub key: CompiledSplitKey,
    pub load_balance: CompiledLoadBalance,
    pub total_weight: u32,
    pub choices: Vec<SplitChoice>,
}

#[derive(Clone, Copy, Debug, PartialEq, Eq, Structural)]
pub enum CompiledLoadBalance {
    HashWeighted,
    RoundRobin,
}

/// An upstream of a split with the running total of weights up to it.
#[derive(Clone, Copy, Debug, PartialEq, Eq, Structural)]
pub struct SplitChoice {
    pub upstream_id: usize,
    pub cumulative: u32,
}

/// A compiled split key; header names are lower case.
#[derive(Clone, Debug)]
pub enum CompiledSplitKey {
    Random,
    Path,
    Host,
    Header(Vec<u8>),
    Cookie(Vec<u8>),
}

/// Everything a forwarding route does to a request.
#[derive(Clone, Debug)]
pub struct ForwardPolicy {
    pub rewrite: Option<CompiledRewrite>,
    pub header_muts: Vec<CompiledHeaderMutation>,
    pub retry: CompiledRetryPolicy,
}

impl Default for ForwardPolicy {
    fn default() -> (r: Self)
        ensures
            r.rewrite is None,
            r.header_muts@.len() == 0,
            r.retry.max_retries == 1,
            r.retry.idempotent_only,
            r.retry.backoff_ns <= 5_000_000_000,
    {
        ForwardPolicy { rewrite: None, header_muts: Vec::new(), retry: CompiledRetryPolicy::default() }
    }
}

/// Compiled retry settings.
#[derive(Clone, Copy, Debug, PartialEq, Eq, Structural)]
pub struct CompiledRetryPolicy {
    pub max_retries: u32,
    pub backoff_ns: u64,
    pub idempotent_only: bool,
}

impl Default for CompiledRetryPolicy {
    fn default() -> (r: Self)
        ensures
            r.max_retries == 1,
            r.idempotent_only,
            r.backoff_ns <= 5_000_000_000,
    {
        let p = RetryPolicy::default();
        CompiledRetryPolicy::from_model(&p)
    }
}

/// Retries are capped at 8, the backoff at 5 seconds.
pub open spec fn retry_compiled(max_retries: u32, backoff_nanos: u128, idempotent_only: bool) -> CompiledRetryPolicy {
    CompiledRetryPolicy {
        max_retries: if max_retries > 8 { 8 } else { max_retries },
        backoff_ns: if backoff_nanos > 5_000_000_000 { 5_000_000_000u64 } else { backoff_nanos as u64 },
        idempotent_only,
    }
}

impl CompiledRetryPolicy {
    /// Compiles retry settings given the backoff in nanoseconds.
    pub fn from_parts(max_retries: u32, backoff_nanos: u128, idempotent_only: bool) -> (r: Self)
        ensures
            r == retry_compiled(max_retries, backoff_nanos, idempotent_only),
    {
        CompiledRetryPolicy {
            max_retries: if max_retries > 8 { 8 } else { max_retries },
            backoff_ns: if backoff_nanos > 5_000_000_000 { 5_000_000_000u64 } else { backoff_nanos as u64 },
            idempotent_only,
        }
    }

    /// Compiles configured retry settings: at most 8 retries, at most 5 s
    /// of backoff.
    pub fn from_model(p: &RetryPolicy) -> (r: Self)
        ensures
            r == retry_compiled(p.max_retries, nanos_of(p.backoff), p.idempotent_only),
    {
        let n = duration_nanos(&p.backoff);
        Self::from_parts(p.max_retries, n, p.idempotent_only)
    }
}

/// A compiled header change; names are kept as written and in lower case.
#[derive(Clone, Debug)]
pub enum CompiledHeaderMutation {
    Add { name: Vec<u8>, name_lower: Vec<u8>, value: Vec<u8> },
    /// Replaces every value of the header.
    Replace { name: Vec<u8>, name_lower: Vec<u8>, value: Vec<u8> },
    Remove { name_lower: Vec<u8> },
}

/// A compiled path rewrite: a literal prefix swap, or a regex replacement.
#[derive(Clone, Debug)]
pub enum CompiledRewrite {
    Prefix { from: Vec<u8>, to: Vec<u8> },
    Regex { re: Arc<regex::bytes::Regex>, replace: Vec<u8> },
}

/// ASCII lower case of each byte.
pub open spec fn lower_bytes(s: Seq<u8>) -> Seq<u8> {
    s.map_values(|b: u8| if 0x41u8 <= b && b <= 0x5Au8 { (b + 32) as u8 } else { b })
}

/// Copies `s` with ASCII upper-case letters made lower case.
pub fn ascii_lower_bytes(s: &[u8]) -> (r: Vec<u8>)
    ensures
        r@ == lower_bytes(s@),
{
    let mut v: Vec<u8> = Vec::new();
    let mut i: usize = 0;
    while i < s.len()
        invariant
            i <= s@.len(),
            v@ == lower_bytes(s@.take(i as int)),
        decreases s@.len() - i,
    {
        let b = s[i];
        v.push(if 0x41u8 <= b && b <= 0x5Au8 { b + 32 } else { b });
        proof {
            assert(lower_bytes(s@.take(i as int + 1)) =~= lower_bytes(s@.take(i as int)).push(v@.last()));
        }
        i = i + 1;
    }
    proof {
        assert(s@.take(s@.len() as int) =~= s@);
    }
    v
}

/// Byte equality of two names already in lower case.
pub fn eq_ascii_case(a_lower: &[u8], b_lower: &[u8]) -> (r: bool)
    ensures
        r == (a_lower@ == b_lower@),
{
    crate::ascii::bytes_eq(a_lower, b_lower)
}

/// An HTTP token character (RFC 9110 `tchar`).
pub open spec fn is_tchar(b: u8) -> bool {
    ||| (0x30u8 <= b && b <= 0x39u8)
    ||| (0x61u8 <= b && b <= 0x7Au8)
    ||| (0x41u8 <= b && b <= 0x5Au8)
    ||| b == 0x21u8 || b == 0x23u8 || b == 0x24u8 || b == 0x25u8 || b == 0x26u8 || b == 0x27u8
    ||| b == 0x2Au8 || b == 0x2Bu8 || b == 0x2Du8 || b == 0x2Eu8 || b == 0x5Eu8 || b == 0x5Fu8
    ||| b == 0x60u8 || b == 0x7Cu8 || b == 0x7Eu8
}

/// A non-empty run of token characters.
pub open spec fn http_token(s: Seq<u8>) -> bool {
    s.len() > 0 && forall|i: int| 0 <= i < s.len() ==> #[trigger] is_tchar(s[i])
}

/// Whether `s` is a valid HTTP token (a header name).
pub fn is_http_token(s: &[u8]) -> (r: bool)
    ensures
        r == http_token(s@),
{
    if s.len() == 0 {
        return false;
    }
    let mut i: usize = 0;
    while i < s.len()
        invariant
            i <= s@.len(),
            forall|j: int| 0 <= j < i ==> #[trigger] is_tchar(s@[j]),
        decreases s@.len() - i,
    {
        let b = s[i];
        let ok = (0x30u8 <= b && b <= 0x39u8) || (0x61u8 <= b && b <= 0x7Au8) || (0x41u8 <= b && b <= 0x5Au8)
            || b == 0x21u8 || b == 0x23u8 || b == 0x24u8 || b == 0x25u8 || b == 0x26u8 || b == 0x27u8 || b
            == 0x2Au8 || b == 0x2Bu8 || b == 0x2Du8 || b == 0x2Eu8 || b == 0x5Eu8 || b == 0x5Fu8 || b == 0x60u8
            || b == 0x7Cu8 || b == 0x7Eu8;
        if !ok {
            proof {
                assert(!is_tchar(s@[i as int]));
            }
            return false;
        }
        i = i + 1;
    }
    true
}

/// A byte that may not appear in a prefix literal (regex meta characters).
pub open spec fn is_regex_meta(b: u8) -> bool {
    b == 0x2Eu8 || b == 0x2Bu8 || b == 0x2Au8 || b == 0x3Fu8 || b == 0x5Bu8 || b == 0x5Du8 || b == 0x28u8 || b
        == 0x29u8 || b == 0x7Bu8 || b == 0x7Du8 || b == 0x7Cu8 || b == 0x5Cu8 || b == 0x24u8
}

/// The literal of a pattern of the form `^literal` (a non-empty literal
/// without regex meta characters), if it is one.
pub open spec fn prefix_literal(pat: Seq<u8>) -> Option<Seq<u8>> {
    if pat.len() >= 2 && pat[0] == 0x5Eu8 && forall|i: int| 1 <= i < pat.len() ==> !#[trigger] is_regex_meta(pat[i]) {
        Some(pat.skip(1))
    } else {
        None
    }
}

/// The literal prefix of a pattern `^literal`, when the pattern is nothing
/// more than that.
pub fn try_parse_simple_prefix_regex(pat: &str) -> (r: Option<&[u8]>)
    ensures
        r matches Some(v) ==> prefix_literal(pat.spec_bytes()) == Some(v@),
        r is None ==> prefix_literal(pat.spec_bytes()) is None,
{
    let b = pat.as_bytes();
    proof {
        assert(b@ == pat.spec_bytes());
    }
    if b.len() < 2 || b[0] != 0x5Eu8 {
        return None;
    }
    let mut i: usize = 1;
    while i < b.len()
        invariant
            1 <= i <= b@.len(),
            b@ == pat.spec_bytes(),
            forall|j: int| 1 <= j < i ==> !#[trigger] is_regex_meta(b@[j]),
        decreases b@.len() - i,
    {
        let c = b[i];
        if c == 0x2Eu8 || c == 0x2Bu8 || c == 0x2Au8 || c == 0x3Fu8 || c == 0x5Bu8 || c == 0x5Du8 || c == 0x28u8
            || c == 0x29u8 || c == 0x7Bu8 || c == 0x7Du8 || c == 0x7Cu8 || c == 0x5Cu8 || c == 0x24u8 {
            proof {
                assert(is_regex_meta(b@[i as int]));
                assert(!(forall|j: int| 1 <= j < b@.len() ==> !#[trigger] is_regex_meta(b@[j])));
            }
            return None;
        }
        i = i + 1;
    }
    let lit = vstd::slice::slice_subrange(b, 1, b.len());
    proof {
        assert(lit@ =~= b@.skip(1));
    }
    Some(lit)
}

fn config_error(msg: &str) -> (r: ArcError)
    ensures
        r is Config,
        r.config_msg() == msg@,
{
    ArcError::config(String::from_str(msg))
}

fn config_error_cat(prefix: &str, detail: &str) -> (r: ArcError)
    ensures
        r is Config,
        r.config_msg() == prefix@ + detail@,
{
    let mut m = String::from_str(prefix);
    m.append(detail);
    ArcError::config(m)
}

fn config_error_with(prefix: &str, detail: &str, suffix: &str) -> (r: ArcError)
    ensures
        r is Config,
        r.config_msg() == prefix@ + detail@ + suffix@,
{
    let mut m = String::from_str(prefix);
    m.append(detail);
    m.append(suffix);
    ArcError::config(m)
}

/// Why a split key is refused, if it is.
pub open spec fn split_key_error(k: SplitKey) -> Option<Seq<char>> {
    match k {
        SplitKey::Header { name } => if trimmed(name@).len() == 0 {
            Some("split.key.header.name is empty"@)
        } else {
            None
        },
        SplitKey::Cookie { name } => if trimmed(name@).len() == 0 {
            Some("split.key.cookie.name is empty"@)
        } else {
            None
        },
        _ => None,
    }
}

/// `c` compiles the accepted key `k`: a header name trimmed and in lower
/// case, a cookie name trimmed.
pub open spec fn split_key_compiled(k: SplitKey, c: CompiledSplitKey) -> bool {
    match k {
        SplitKey::Random => c is Random,
        SplitKey::Path => c is Path,
        SplitKey::Host => c is Host,
        SplitKey::Header { name } => c matches CompiledSplitKey::Header(v) && v@ == lower_bytes(utf8(trimmed(name@))),
        SplitKey::Cookie { name } => c matches CompiledSplitKey::Cookie(v) && v@ == utf8(trimmed(name@)),
    }
}

/// Compiles the key of a split.
pub fn compile_split_key(k: &SplitKey) -> (r: Result<CompiledSplitKey, ArcError>)
    ensures
        r is Ok <==> split_key_error(*k) is None,
        r matches Ok(c) ==> split_key_compiled(*k, c),
        r matches Err(e) ==> e is Config && split_key_error(*k) == Some(e.config_msg()),
{
    match k {
        SplitKey::Random => Ok(CompiledSplitKey::Random),
        SplitKey::Path => Ok(CompiledSplitKey::Path),
        SplitKey::Host => Ok(CompiledSplitKey::Host),
        SplitKey::Header { name } => {
            let n = trim_str(name.as_str());
            if n.unicode_len() == 0 {
                return Err(config_error("split.key.header.name is empty"));
            }
            Ok(CompiledSplitKey::Header(ascii_lower_bytes(n.as_bytes())))
        },
        SplitKey::Cookie { name } => {
            let n = trim_str(name.as_str());
            if n.unicode_len() == 0 {
                return Err(config_error("split.key.cookie.name is empty"));
            }
            Ok(CompiledSplitKey::Cookie(str_bytes(n)))
        },
    }
}

/// The id that the first entry named `name` maps to.
pub open spec fn lookup(table: Seq<(String, usize)>, name: Seq<char>) -> Option<usize>
    decreases table.len(),
{
    if table.len() == 0 {
        None
    } else if table[0].0@ == name {
        Some(table[0].1)
    } else {
        lookup(table.drop_first(), name)
    }
}

fn lookup_exec(table: &Vec<(String, usize)>, name: &str) -> (r: Option<usize>)
    ensures
        r == lookup(table@, name@),
{
    let mut i: usize = 0;
    proof {
        assert(table@.skip(0) =~= table@);
    }
    while i < table.len()
        invariant
            i <= table@.len(),
            lookup(table@, name@) == lookup(table@.skip(i as int), name@),
        decreases table@.len() - i,
    {
        proof {
            assert(table@.skip(i as int).drop_first() =~= table@.skip(i as int + 1));
        }
        if crate::ascii::bytes_eq(table[i].0.as_str().as_bytes(), name.as_bytes()) {
            proof {
                vstd::utf8::encode_utf8_decode_utf8(table@[i as int].0@);
                vstd::utf8::encode_utf8_decode_utf8(name@);
            }
            return Some(table[i].1);
        }
        proof {
            if table@[i as int].0@ == name@ {
                assert(utf8(table@[i as int].0@) == utf8(name@));
            }
        }
        i = i + 1;
    }
    None
}

/// The compiled choices of a split from choice `i` on, given the weight
/// total so far, or why they are refused: a zero weight, an unknown
/// upstream, or a total over `u32::MAX`.
pub open spec fn choices_from(cs: Seq<TrafficChoice>, table: Seq<(String, usize)>, i: int, total: int) -> Result<
    Seq<SplitChoice>,
    Seq<char>,
>
    decreases cs.len() - i,
{
    if i < 0 || i >= cs.len() {
        Ok(Seq::empty())
    } else {
        let c = cs[i];
        if c.weight == 0 {
            Err("split choice weight must be > 0 (upstream="@ + c.upstream@ + ")"@)
        } else {
            match lookup(table, c.upstream@) {
                None => Err("unknown upstream in split: "@ + c.upstream@),
                Some(id) => if total + c.weight > u32::MAX {
                    Err("split total weight overflow"@)
                } else {
                    match choices_from(cs, table, i + 1, total + c.weight) {
                        Ok(rest) => Ok(seq![SplitChoice { upstream_id: id, cumulative: (total + c.weight) as u32 }] + rest),
                        Err(m) => Err(m),
                    }
                },
            }
        }
    }
}

/// The load balancing a split uses: round robin when asked for, weighted
/// hashing otherwise (also when nothing is asked for).
pub open spec fn compiled_lb(lb: Option<LoadBalanceConfig>) -> CompiledLoadBalance {
    match lb {
        Some(LoadBalanceConfig::RoundRobin) => CompiledLoadBalance::RoundRobin,
        _ => CompiledLoadBalance::HashWeighted,
    }
}

/// The weight total of compiled choices: the last running total.
pub open spec fn choices_total(cs: Seq<SplitChoice>) -> u32 {
    if cs.len() == 0 { 0 } else { cs.last().cumulative }
}

proof fn lemma_choices_step(cs: Seq<TrafficChoice>, table: Seq<(String, usize)>, i: int, total: int, id: usize)
    requires
        0 <= i < cs.len(),
        cs[i].weight != 0,
        lookup(table, cs[i].upstream@) == Some(id),
        total + cs[i].weight <= u32::MAX,
    ensures
        choices_from(cs, table, i, total) matches Ok(v) ==> choices_from(cs, table, i + 1, total + cs[i].weight)
            matches Ok(rest) && v == seq![SplitChoice { upstream_id: id, cumulative: (total + cs[i].weight) as u32 }]
            + rest,
        choices_from(cs, table, i, total) is Err ==> choices_from(cs, table, i + 1, total + cs[i].weight)
            == choices_from(cs, table, i, total),
        choices_from(cs, table, i + 1, total + cs[i].weight) is Err ==> choices_from(cs, table, i, total) is Err,
{
}

/// Compiles where a route sends requests. Non-forwarding routes send
/// nowhere; a split (which wins over a single upstream) needs choices, a
/// valid key, positive weights naming known upstreams and a total that fits
/// in `u32`; otherwise the named upstream must be known.
pub fn compile_upstreams(
    is_forward: bool,
    upstream: Option<&str>,
    split: Option<&TrafficSplitConfig>,
    load_balance: Option<LoadBalanceConfig>,
    upstream_name_to_id: &Vec<(String, usize)>,
) -> (r: Result<RouteUpstreams, ArcError>)
    ensures
        !is_forward ==> (r matches Ok(u) && u is Unrouted),
        is_forward && split.is_some() ==> {
            let s = split.unwrap();
            &&& s.choices@.len() == 0 ==> (r matches Err(e) && e is Config && e.config_msg()
                == "split.choices must be non-empty"@)
            &&& s.choices@.len() > 0 && split_key_error(s.key) is Some ==> (r matches Err(e) && e is Config
                && Some(e.config_msg()) == split_key_error(s.key))
            &&& s.choices@.len() > 0 && split_key_error(s.key) is None ==> match choices_from(
                s.choices@,
                upstream_name_to_id@,
                0,
                0,
            ) {
                Err(m) => r matches Err(e) && e is Config && e.config_msg() == m,
                Ok(v) => r matches Ok(RouteUpstreams::Split(cs)) && split_key_compiled(s.key, cs.key)
                    && cs.load_balance == compiled_lb(load_balance) && cs.choices@ == v && cs.total_weight
                    == choices_total(v),
            }
        },
        is_forward && split.is_none() && upstream.is_some() ==> match lookup(
            upstream_name_to_id@,
            upstream.unwrap()@,
        ) {
            Some(id) => r matches Ok(RouteUpstreams::Single { upstream_id }) && upstream_id == id,
            None => r matches Err(e) && e is Config && e.config_msg() == "unknown upstream in route: "@
                + upstream.unwrap()@,
        },
        is_forward && split.is_none() && upstream.is_none() ==> (r matches Err(e) && e is Config && e.config_msg()
            == "forward route must specify either `upstream` or `split`"@),
{
    if !is_forward {
        return Ok(RouteUpstreams::Unrouted);
    }
    if let Some(s) = split {
        if s.choices.len() == 0 {
            return Err(config_error("split.choices must be non-empty"));
        }
        let key = match compile_split_key(&s.key) {
            Ok(k) => k,
            Err(e) => {
                return Err(e);
            },
        };
        let lb = match load_balance {
            Some(LoadBalanceConfig::RoundRobin) => CompiledLoadBalance::RoundRobin,
            _ => CompiledLoadBalance::HashWeighted,
        };
        let ghost cs = s.choices@;
        let ghost table = upstream_name_to_id@;
        let mut out: Vec<SplitChoice> = Vec::new();
        let mut total: u32 = 0;
        let mut i: usize = 0;
        while i < s.choices.len()
            invariant
                i <= cs.len(),
                is_forward,
                split == Some(s),
                split_key_error(s.key) is None,
                split_key_compiled(s.key, key),
                lb == compiled_lb(load_balance),
                cs == s.choices@,
                table == upstream_name_to_id@,
                cs.len() > 0,
                total == choices_total(out@),
                match choices_from(cs, table, 0, 0) {
                    Ok(v) => choices_from(cs, table, i as int, total as int) matches Ok(rest) && v == out@ + rest,
                    Err(m) => choices_from(cs, table, i as int, total as int) == Err::<Seq<SplitChoice>, Seq<char>>(m),
                },
            decreases cs.len() - i,
        {
            let c = &s.choices[i];
            if c.weight == 0 {
                let e = config_error_with("split choice weight must be > 0 (upstream=", c.upstream.as_str(), ")");
                proof {
                    assert(choices_from(cs, table, i as int, total as int) == Err::<Seq<SplitChoice>, Seq<char>>(e.config_msg()));
                }
                return Err(e);
            }
            let up_id = match lookup_exec(upstream_name_to_id, c.upstream.as_str()) {
                Some(id) => id,
                None => {
                    let e = config_error_cat("unknown upstream in split: ", c.upstream.as_str());
                    proof {
                        assert(choices_from(cs, table, i as int, total as int) == Err::<Seq<SplitChoice>, Seq<char>>(e.config_msg()));
                    }
                    return Err(e);
                },
            };
            let next = match total.checked_add(c.weight) {
                Some(t) => t,
                None => {
                    let e = config_error("split total weight overflow");
                    proof {
                        assert(choices_from(cs, table, i as int, total as int) == Err::<Seq<SplitChoice>, Seq<char>>(e.config_msg()));
                    }
                    return Err(e);
                },
            };
            proof {
                lemma_choices_step(cs, table, i as int, total as int, up_id);
                let ghost sc = SplitChoice { upstream_id: up_id, cumulative: next };
                if let Ok(v) = choices_from(cs, table, 0, 0) {
                    let rest = choices_from(cs, table, i as int + 1, next as int)->Ok_0;
                    assert(v =~= out@.push(sc) + rest);
                }
            }
            out.push(SplitChoice { upstream_id: up_id, cumulative: next });
            total = next;
            i = i + 1;
        }
        proof {
            assert(choices_from(cs, table, i as int, total as int) == Ok::<Seq<SplitChoice>, Seq<char>>(Seq::empty()));
            if let Ok(v) = choices_from(cs, table, 0, 0) {
                assert(v =~= out@);
            }
        }
        return Ok(RouteUpstreams::Split(Arc::new(CompiledSplit { key, load_balance: lb, total_weight: total, choices: out })));
    }
    if let Some(name) = upstream {
        return match lookup_exec(upstream_name_to_id, name) {
            Some(id) => Ok(RouteUpstreams::Single { upstream_id: id }),
            None => Err(config_error_cat("unknown upstream in route: ", name)),
        };
    }
    Err(config_error("forward route must specify either `upstream` or `split`"))
}


/// Hop-by-hop and framing headers that mutations may not touch.
pub open spec fn forbidden_names() -> Seq<Seq<u8>> {
    seq![
        utf8("connection"@),
        utf8("proxy-connection"@),
        utf8("keep-alive"@),
        utf8("transfer-encoding"@),
        utf8("upgrade"@),
        utf8("te"@),
        utf8("trailer"@),
        utf8("content-length"@),
    ]
}

fn forbidden_headers() -> (r: Vec<Vec<u8>>)
    ensures
        r@.len() == forbidden_names().len(),
        forall|k: int| 0 <= k < r@.len() ==> #[trigger] r@[k]@ == forbidden_names()[k],
{
    let mut v: Vec<Vec<u8>> = Vec::new();
    v.push(str_bytes("connection"));
    v.push(str_bytes("proxy-connection"));
    v.push(str_bytes("keep-alive"));
    v.push(str_bytes("transfer-encoding"));
    v.push(str_bytes("upgrade"));
    v.push(str_bytes("te"));
    v.push(str_bytes("trailer"));
    v.push(str_bytes("content-length"));
    v
}

/// `name` is one of `forb`.
pub open spec fn is_forbidden(name: Seq<u8>, forb: Seq<Seq<u8>>) -> bool {
    exists|k: int| 0 <= k < forb.len() && #[trigger] forb[k] == name
}

fn in_list(name: &[u8], forb: &Vec<Vec<u8>>) -> (r: bool)
    ensures
        r == is_forbidden(name@, forb@.map_values(|x: Vec<u8>| x@)),
{
    let ghost fv = forb@.map_values(|x: Vec<u8>| x@);
    let mut k: usize = 0;
    while k < forb.len()
        invariant
            k <= forb@.len(),
            fv == forb@.map_values(|x: Vec<u8>| x@),
            forall|j: int| 0 <= j < k ==> #[trigger] fv[j] != name@,
        decreases forb@.len() - k,
    {
        if eq_ascii_case(name, forb[k].as_slice()) {
            proof {
                assert(fv[k as int] == name@);
            }
            return true;
        }
        k = k + 1;
    }
    false
}

/// A byte a header value may not hold: CR, LF or NUL.
pub open spec fn bad_value_byte(b: u8) -> bool {
    b == 0x0Du8 || b == 0x0Au8 || b == 0u8
}

/// Why a header mutation's name and value are refused, if they are.
pub open spec fn kv_error(name: Seq<char>, value: Seq<char>) -> Option<Seq<char>> {
    let n = trimmed(name);
    if n.len() == 0 {
        Some("header mutation name is empty"@)
    } else if !http_token(utf8(n)) {
        Some("invalid header name token: "@ + n)
    } else if is_forbidden(lower_bytes(utf8(n)), forbidden_names()) {
        Some("refuse to mutate hop-by-hop/framing header: "@ + n)
    } else if exists|i: int| 0 <= i < utf8(value).len() && #[trigger] bad_value_byte(utf8(value)[i]) {
        Some("invalid header value (CR/LF/NUL) for header: "@ + n)
    } else {
        None
    }
}

fn has_bad_value_byte(v: &[u8]) -> (r: bool)
    ensures
        r == exists|i: int| 0 <= i < v@.len() && #[trigger] bad_value_byte(v@[i]),
{
    let mut i: usize = 0;
    while i < v.len()
        invariant
            i <= v@.len(),
            forall|j: int| 0 <= j < i ==> !#[trigger] bad_value_byte(v@[j]),
        decreases v@.len() - i,
    {
        let b = v[i];
        if b == 0x0Du8 || b == 0x0Au8 || b == 0u8 {
            proof {
                assert(bad_value_byte(v@[i as int]));
            }
            return true;
        }
        i = i + 1;
    }
    false
}

/// Checks and compiles a header name and value: the name trimmed, a
/// token and not forbidden; the value free of CR, LF and NUL. Gives the
/// name, its lower case, and the value.
fn compile_header_kv(name: &str, value: &str, forbidden: &Vec<Vec<u8>>) -> (r: Result<(Vec<u8>, Vec<u8>, Vec<u8>), ArcError>)
    requires
        forbidden@.map_values(|x: Vec<u8>| x@) == forbidden_names(),
    ensures
        r is Ok <==> kv_error(name@, value@) is None,
        r matches Ok(t) ==> t.0@ == utf8(trimmed(name@)) && t.1@ == lower_bytes(utf8(trimmed(name@))) && t.2@
            == utf8(value@),
        r matches Err(e) ==> e is Config && kv_error(name@, value@) == Some(e.config_msg()),
{
    let n = trim_str(name);
    if n.unicode_len() == 0 {
        return Err(config_error("header mutation name is empty"));
    }
    let nb = n.as_bytes();
    if !is_http_token(nb) {
        return Err(config_error_cat("invalid header name token: ", n));
    }
    let lower = ascii_lower_bytes(nb);
    if in_list(lower.as_slice(), forbidden) {
        return Err(config_error_cat("refuse to mutate hop-by-hop/framing header: ", n));
    }
    let v = value.as_bytes();
    if has_bad_value_byte(v) {
        proof {
            assert(v@ == utf8(value@));
            let i = choose|i: int| 0 <= i < v@.len() && #[trigger] bad_value_byte(v@[i]);
            assert(bad_value_byte(utf8(value@)[i]));
        }
        return Err(config_error_cat("invalid header value (CR/LF/NUL) for header: ", n));
    }
    Ok((str_bytes(n), lower, str_bytes(value)))
}

/// Why a header mutation is refused, if it is.
pub open spec fn mutation_error(m: HeaderMutation) -> Option<Seq<char>> {
    match m {
        HeaderMutation::Add { name, value } => kv_error(name@, value@),
        HeaderMutation::Replace { name, value } => kv_error(name@, value@),
        HeaderMutation::Remove { name } => {
            let n = trimmed(name@);
            if n.len() == 0 {
                Some("header remove name is empty"@)
            } else if is_forbidden(lower_bytes(utf8(n)), forbidden_names()) {
                Some("refuse to mutate hop-by-hop/framing header: "@ + n)
            } else {
                None
            }
        },
    }
}

/// `c` is the compiled form of the accepted mutation `m`.
pub open spec fn mutation_compiled(m: HeaderMutation, c: CompiledHeaderMutation) -> bool {
    match m {
        HeaderMutation::Add { name, value } => c matches CompiledHeaderMutation::Add { name: n, name_lower: l, value: v }
            && n@ == utf8(trimmed(name@)) && l@ == lower_bytes(utf8(trimmed(name@))) && v@ == utf8(value@),
        HeaderMutation::Replace { name, value } => c matches CompiledHeaderMutation::Replace {
            name: n,
            name_lower: l,
            value: v,
        } && n@ == utf8(trimmed(name@)) && l@ == lower_bytes(utf8(trimmed(name@))) && v@ == utf8(value@),
        HeaderMutation::Remove { name } => c matches CompiledHeaderMutation::Remove { name_lower: l } && l@
            == lower_bytes(utf8(trimmed(name@))),
    }
}

/// Compiles header mutations in order; the first refused one makes the
/// whole list refused with its reason.
pub fn compile_header_mutations(muts: &Vec<HeaderMutation>) -> (r: Result<Vec<CompiledHeaderMutation>, ArcError>)
    ensures
        r is Ok <==> forall|k: int| 0 <= k < muts@.len() ==> #[trigger] mutation_error(muts@[k]) is None,
        r matches Ok(v) ==> v@.len() == muts@.len() && forall|k: int|
            0 <= k < muts@.len() ==> #[trigger] mutation_compiled(muts@[k], v@[k]),
        r matches Err(e) ==> e is Config && exists|k: int|
            0 <= k < muts@.len() && #[trigger] mutation_error(muts@[k]) == Some(e.config_msg()) && forall|j: int|
                0 <= j < k ==> #[trigger] mutation_error(muts@[j]) is None,
{
    let mut out: Vec<CompiledHeaderMutation> = Vec::new();
    if muts.len() == 0 {
        return Ok(out);
    }
    let forbidden = forbidden_headers();
    proof {
        assert(forbidden@.map_values(|x: Vec<u8>| x@) =~= forbidden_names());
    }
    let mut k: usize = 0;
    while k < muts.len()
        invariant
            k <= muts@.len(),
            forbidden@.map_values(|x: Vec<u8>| x@) == forbidden_names(),
            out@.len() == k,
            forall|j: int| 0 <= j < k ==> #[trigger] mutation_error(muts@[j]) is None,
            forall|j: int| 0 <= j < k ==> #[trigger] mutation_compiled(muts@[j], out@[j]),
        decreases muts@.len() - k,
    {
        let c = match &muts[k] {
            HeaderMutation::Add { name, value } => match compile_header_kv(name.as_str(), value.as_str(), &forbidden) {
                Ok((n, l, v)) => CompiledHeaderMutation::Add { name: n, name_lower: l, value: v },
                Err(e) => {
                    proof {
                        assert(mutation_error(muts@[k as int]) == Some(e.config_msg()));
                    }
                    return Err(e);
                },
            },
            HeaderMutation::Replace { name, value } => match compile_header_kv(name.as_str(), value.as_str(), &forbidden) {
                Ok((n, l, v)) => CompiledHeaderMutation::Replace { name: n, name_lower: l, value: v },
                Err(e) => {
                    proof {
                        assert(mutation_error(muts@[k as int]) == Some(e.config_msg()));
                    }
                    return Err(e);
                },
            },
            HeaderMutation::Remove { name } => {
                let n = trim_str(name.as_str());
                if n.unicode_len() == 0 {
                    let e = config_error("header remove name is empty");
                    proof {
                        assert(mutation_error(muts@[k as int]) == Some(e.config_msg()));
                    }
                    return Err(e);
                }
                let lower = ascii_lower_bytes(n.as_bytes());
                if in_list(lower.as_slice(), &forbidden) {
                    let e = config_error_cat("refuse to mutate hop-by-hop/framing header: ", n);
                    proof {
                        assert(mutation_error(muts@[k as int]) == Some(e.config_msg()));
                    }
                    return Err(e);
                }
                CompiledHeaderMutation::Remove { name_lower: lower }
            },
        };
        out.push(c);
        k = k + 1;
    }
    Ok(out)
}

/// Takes the outcome of compiling a rewrite regex: the compiled regex with
/// its replacement, or a config error that names the regex error.
pub fn finish_regex_rewrite(compiled: Result<regex::bytes::Regex, regex::Error>, replace: &str) -> (r: Result<
    Option<CompiledRewrite>,
    ArcError,
>)
    ensures
        compiled is Ok <==> r is Ok,
        r matches Ok(c) ==> (c matches Some(CompiledRewrite::Regex { replace: rep, .. }) && rep@ == utf8(replace@)),
        r matches Err(e) ==> e is Config && e.config_msg().len() >= 23 && e.config_msg().take(23)
            == "invalid rewrite regex: "@,
{
    match compiled {
        Ok(re) => Ok(Some(CompiledRewrite::Regex { re: Arc::new(re), replace: str_bytes(replace) })),
        Err(e) => {
            let t = regex_error_text(&e);
            let err = config_error_cat("invalid rewrite regex: ", t.as_str());
            proof {
                reveal_strlit("invalid rewrite regex: ");
                assert(err.config_msg().take(23) =~= "invalid rewrite regex: "@);
            }
            Err(err)
        },
    }
}

/// Whether a string holds `$`.
pub open spec fn has_dollar(s: Seq<u8>) -> bool {
    exists|i: int| 0 <= i < s.len() && #[trigger] s[i] == 0x24u8
}

fn contains_dollar(v: &[u8]) -> (r: bool)
    ensures
        r == has_dollar(v@),
{
    let mut i: usize = 0;
    while i < v.len()
        invariant
            i <= v@.len(),
            forall|j: int| 0 <= j < i ==> v@[j] != 0x24u8,
        decreases v@.len() - i,
    {
        if v[i] == 0x24u8 {
            return true;
        }
        i = i + 1;
    }
    false
}

/// Compiles a path rewrite. A pattern `^literal` becomes a prefix swap (its
/// replacement may not use `$` captures); any other pattern is compiled as
/// a regex.
pub fn compile_rewrite(rule: Option<&RewriteRule>) -> (r: Result<Option<CompiledRewrite>, ArcError>)
    ensures
        r is Ok <==> rewrite_ok(opt_rule(rule)),
        r is Err ==> r->Err_0 is Config,
        rule is None ==> (r matches Ok(c) && c is None),
        rule matches Some(rr) ==> {
            let pat = trimmed(rr.pattern@);
            let rep = utf8(rr.replace@);
            &&& pat.len() == 0 ==> (r matches Err(e) && e is Config && e.config_msg() == "rewrite.pattern is empty"@)
            &&& pat.len() > 0 ==> match prefix_literal(utf8(pat)) {
                Some(from) => if has_dollar(rep) {
                    r matches Err(e) && e is Config && e.config_msg()
                        == "prefix-like rewrite does not support capture replacement ($)"@
                } else {
                    r matches Ok(Some(CompiledRewrite::Prefix { from: f, to: t })) && f@ == from && t@ == rep
                },
                None => (r is Ok <==> regex_accepts(pat)) && (r matches Ok(c) ==> (c matches Some(
                    CompiledRewrite::Regex { replace, .. },
                ) && replace@ == rep)) && (r matches Err(e) ==> e is Config && e.config_msg().len() >= 23
                    && e.config_msg().take(23) == "invalid rewrite regex: "@),
            }
        },
{
    let r = match rule {
        None => {
            return Ok(None);
        },
        Some(r) => r,
    };
    let pat = trim_str(r.pattern.as_str());
    if pat.unicode_len() == 0 {
        return Err(config_error("rewrite.pattern is empty"));
    }
    let rep = r.replace.as_str();
    match try_parse_simple_prefix_regex(pat) {
        Some(from) => {
            if contains_dollar(rep.as_bytes()) {
                return Err(config_error("prefix-like rewrite does not support capture replacement ($)"));
            }
            let mut f: Vec<u8> = Vec::new();
            crate::text::push_all(&mut f, from);
            Ok(Some(CompiledRewrite::Prefix { from: f, to: str_bytes(rep) }))
        },
        None => {
            let compiled = regex_new(pat);
            finish_regex_rewrite(compiled, rep)
        },
    }
}

/// Whether a rewrite rule is accepted: none at all, or a non-blank pattern
/// that is either `^literal` with a replacement free of `$`, or a regex
/// that compiles.
pub open spec fn rewrite_ok(rule: Option<RewriteRule>) -> bool {
    match rule {
        None => true,
        Some(rr) => {
            let pat = trimmed(rr.pattern@);
            pat.len() > 0 && match prefix_literal(utf8(pat)) {
                Some(_) => !has_dollar(utf8(rr.replace@)),
                None => regex_accepts(pat),
            }
        },
    }
}

/// The rule behind an optional reference.
pub open spec fn opt_rule(rule: Option<&RewriteRule>) -> Option<RewriteRule> {
    match rule {
        Some(rr) => Some(*rr),
        None => None,
    }
}

/// Compiles everything a forwarding route does to a request: the rewrite
/// (checked first), the header mutations, the retry settings.
pub fn compile_forward_policy(rewrite: Option<&RewriteRule>, headers: &Vec<HeaderMutation>, retry: &RetryPolicy) -> (r:
    Result<ForwardPolicy, ArcError>)
    ensures
        r matches Ok(p) ==> (forall|k: int| 0 <= k < headers@.len() ==> #[trigger] mutation_error(headers@[k]) is None)
            && p.header_muts@.len() == headers@.len() && (forall|k: int|
            0 <= k < headers@.len() ==> #[trigger] mutation_compiled(headers@[k], p.header_muts@[k]))
            && p.retry.max_retries == (if retry.max_retries > 8 { 8 } else { retry.max_retries })
            && p.retry.idempotent_only == retry.idempotent_only && p.retry.backoff_ns <= 5_000_000_000,
        r is Ok <==> rewrite_ok(opt_rule(rewrite)) && forall|k: int|
            0 <= k < headers@.len() ==> #[trigger] mutation_error(headers@[k]) is None,
        r matches Ok(p) ==> (rewrite is None <==> p.rewrite is None),
        r is Err ==> r->Err_0 is Config,
{
    let rw = match compile_rewrite(rewrite) {
        Ok(x) => x,
        Err(e) => {
            return Err(e);
        },
    };
    let hm = match compile_header_mutations(headers) {
        Ok(x) => x,
        Err(e) => {
            return Err(e);
        },
    };
    let rt = CompiledRetryPolicy::from_model(retry);
    Ok(ForwardPolicy { rewrite: rw, header_muts: hm, retry: rt })
}

} // verus!
