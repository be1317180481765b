//! Request path rewriting by a configured regex, and configured header
//! changes applied to an `http::HeaderMap`.
use vstd::prelude::*;

use crate::arc_error::ArcError;
use crate::forward_policies::HeaderMutation;
use crate::forward_policies::RewriteRule;

verus! {

/// `regex::Regex`, a compiled pattern over text.
#[verifier::external_type_specification]
#[verifier::external_body]
pub struct ExTextRegex(regex::Regex);

/// Whether `regex::Regex::new` accepts the pattern.
pub uninterp spec fn text_regex_accepts(pattern: Seq<char>) -> bool;

/// Whether the compiled pattern finds a match in the text
/// (`regex::Regex::is_match`).
pub uninterp spec fn text_regex_finds(pattern: Seq<char>, text: Seq<char>) -> bool;

/// The text with its first match replaced, `$` references expanded
/// (`regex::Regex::replace`).
pub uninterp spec fn text_regex_replaced(pattern: Seq<char>, text: Seq<char>, replacement: Seq<char>) -> Seq<char>;

/// A compiled pattern together with the pattern it was compiled from.
pub struct PathRegex {
    pattern: String,
    re: regex::Regex,
}

impl PathRegex {
    pub closed spec fn pattern(&self) -> Seq<char> {
        self.pattern@
    }
}

/// `regex::Regex::new`: compiles a pattern; it succeeds exactly on the
/// patterns `text_regex_accepts` names.
#[verifier::external_body]
fn path_regex_new(pattern: &str) -> (r: Result<PathRegex, regex::Error>)
    ensures
        r is Ok <==> text_regex_accepts(pattern@),
        r matches Ok(p) ==> p.pattern() == pattern@,
{
    regex::Regex::new(pattern).map(|re| PathRegex { pattern: pattern.to_string(), re })
}

/// `regex::Regex::is_match` on the compiled pattern.
#[verifier::external_body]
fn path_regex_finds(p: &PathRegex, text: &str) -> (r: bool)
    ensures
        r == text_regex_finds(p.pattern(), text@),
{
    p.re.is_match(text)
}

/// `regex::Regex::replace` on the compiled pattern: the first match
/// replaced.
#[verifier::external_body]
fn path_regex_replace(p: &PathRegex, text: &str, replacement: &str) -> (r: String)
    ensures
        r@ == text_regex_replaced(p.pattern(), text@, replacement@),
{
    p.re.replace(text, replacement).to_string()
}

/// The text of a regex error, as its `Display` writes it.
#[verifier::external_body]
fn text_regex_error(e: &regex::Error) -> String {
    format!("{e}")
}

/// Rewrites `path` by the rule: `None` when the pattern does not match,
/// else the path with its first match replaced; a pattern that does not
/// compile is a config error.
pub fn rewrite_path(path: &str, rule: &RewriteRule) -> (r: Result<Option<String>, ArcError>)
    ensures
        r is Err <==> !text_regex_accepts(rule.pattern@),
        r is Err ==> r->Err_0 is Config,
        r matches Ok(o) ==> match o {
            None => !text_regex_finds(rule.pattern@, path@),
            Some(s) => text_regex_finds(rule.pattern@, path@) && s@ == text_regex_replaced(
                rule.pattern@,
                path@,
                rule.replace@,
            ),
        },
{
    let re = match path_regex_new(rule.pattern.as_str()) {
        Ok(re) => re,
        Err(e) => {
            return Err(ArcError::config(text_regex_error(&e)));
        },
    };
    if !path_regex_finds(&re, path) {
        return Ok(None);
    }
    Ok(Some(path_regex_replace(&re, path, rule.replace.as_str())))
}

/// `http::HeaderMap`, the header multimap of a request.
#[verifier::external_type_specification]
#[verifier::external_body]
#[verifier::reject_recursive_types(T)]
pub struct ExHeaderMap<T>(http::HeaderMap<T>);

/// `http::HeaderName`, a parsed header name.
#[verifier::external_type_specification]
#[verifier::external_body]
pub struct ExHeaderName(http::HeaderName);

/// `http::HeaderValue`, a parsed header value.
#[verifier::external_type_specification]
#[verifier::external_body]
pub struct ExHeaderValue(http::HeaderValue);

/// What `http::HeaderName::from_bytes` makes of the bytes: `None` where it
/// refuses them, else the canonical (lower-case) name, as `as_str` gives it.
pub uninterp spec fn header_name_of(b: Seq<u8>) -> Option<Seq<u8>>;

/// What a header map holds: each name (canonical bytes) to the bytes of its
/// values, in the order they were added.
pub uninterp spec fn header_values(m: http::HeaderMap) -> Map<Seq<u8>, Seq<Seq<u8>>>;

/// The bytes `http::HeaderValue` accepts: tab, and every byte from 32 up but
/// 127 (DEL).
pub open spec fn header_value_ok(b: Seq<u8>) -> bool {
    forall|i: int| 0 <= i < b.len() ==> ((b[i] >= 32 && b[i] != 127) || b[i] == 9)
}

/// The most distinct names a map may hold before a change: below this the
/// map never needs a table larger than `http` allows, so `append` and
/// `insert` cannot panic.
pub const HEADER_KEY_LIMIT: usize = 6553;

/// A parsed header name with its canonical bytes.
struct HeaderKey {
    name: http::HeaderName,
    bytes: Vec<u8>,
}

impl HeaderKey {
    closed spec fn key(&self) -> Seq<u8> {
        self.bytes@
    }
}

/// A parsed header value with its bytes.
struct HeaderText {
    value: http::HeaderValue,
    bytes: Vec<u8>,
}

impl HeaderText {
    closed spec fn text(&self) -> Seq<u8> {
        self.bytes@
    }
}

/// `http::HeaderName::from_bytes`: refuses exactly where `header_name_of`
/// is `None`; an accepted name is kept with its canonical bytes
/// (`HeaderName::as_str`). The error is the text its `Display` writes.
#[verifier::external_body]
fn parse_header_name(b: &[u8]) -> (r: Result<HeaderKey, String>)
    ensures
        r is Ok <==> header_name_of(b@) is Some,
        r matches Ok(k) ==> header_name_of(b@) == Some(k.key()),
{
    match http::HeaderName::from_bytes(b) {
        Ok(name) => {
            let bytes = name.as_str().as_bytes().to_vec();
            Ok(HeaderKey { name, bytes })
        },
        Err(e) => Err(e.to_string()),
    }
}

/// `http::HeaderValue::from_str`: accepts the text exactly when every byte
/// of it passes `header_value_ok`; the value holds the text's bytes. The
/// error is the text its `Display` writes.
#[verifier::external_body]
fn parse_header_value(s: &str) -> (r: Result<HeaderText, String>)
    ensures
        r is Ok <==> header_value_ok(vstd::utf8::encode_utf8(s@)),
        r matches Ok(v) ==> v.text() == vstd::utf8::encode_utf8(s@),
{
    match http::HeaderValue::from_str(s) {
        Ok(value) => Ok(HeaderText { value, bytes: s.as_bytes().to_vec() }),
        Err(e) => Err(e.to_string()),
    }
}

/// `http::HeaderMap::keys_len`: the number of distinct names held, of
/// which a map has finitely many (the clause reads -1 for an infinite
/// one, which no count equals).
#[verifier::external_body]
fn header_key_count(m: &http::HeaderMap) -> (r: usize)
    ensures
        r as int == if header_values(*m).dom().finite() {
            header_values(*m).dom().len() as int
        } else {
            -1
        },
{
    m.keys_len()
}

/// The values after `v` is added behind those of `k`.
pub open spec fn values_appended(vals: Map<Seq<u8>, Seq<Seq<u8>>>, k: Seq<u8>, v: Seq<u8>) -> Map<
    Seq<u8>,
    Seq<Seq<u8>>,
> {
    vals.insert(k, if vals.dom().contains(k) { vals[k].push(v) } else { seq![v] })
}

/// `http::HeaderMap::append`: the value goes behind the values the name
/// already has. Below `HEADER_KEY_LIMIT` names the table never has to grow
/// past the size at which `append` panics.
#[verifier::external_body]
fn header_map_append(m: &mut http::HeaderMap, k: HeaderKey, v: HeaderText)
    requires
        header_values(*old(m)).dom().finite(),
        header_values(*old(m)).dom().len() <= HEADER_KEY_LIMIT,
    ensures
        header_values(*final(m)) == values_appended(header_values(*old(m)), k.key(), v.text()),
{
    m.append(k.name, v.value);
}

/// `http::HeaderMap::insert`: the value replaces every value the name had.
/// Below `HEADER_KEY_LIMIT` names the table never has to grow past the size
/// at which `insert` panics.
#[verifier::external_body]
fn header_map_insert(m: &mut http::HeaderMap, k: HeaderKey, v: HeaderText)
    requires
        header_values(*old(m)).dom().finite(),
        header_values(*old(m)).dom().len() <= HEADER_KEY_LIMIT,
    ensures
        header_values(*final(m)) == header_values(*old(m)).insert(k.key(), seq![v.text()]),
{
    m.insert(k.name, v.value);
}

/// `http::HeaderMap::remove`: the name and all its values leave.
#[verifier::external_body]
fn header_map_remove(m: &mut http::HeaderMap, k: HeaderKey)
    ensures
        header_values(*final(m)) == header_values(*old(m)).remove(k.key()),
{
    m.remove(&k.name);
}

/// The name bytes of a mutation, as configured.
pub open spec fn mutation_name(m: HeaderMutation) -> Seq<u8> {
    match m {
        HeaderMutation::Add { name, .. } => vstd::utf8::encode_utf8(name@),
        HeaderMutation::Replace { name, .. } => vstd::utf8::encode_utf8(name@),
        HeaderMutation::Remove { name } => vstd::utf8::encode_utf8(name@),
    }
}

/// Whether a mutation can be applied: its name parses, and so does its
/// value where it has one.
pub open spec fn mutation_accepted(m: HeaderMutation) -> bool {
    &&& header_name_of(mutation_name(m)) is Some
    &&& match m {
        HeaderMutation::Add { value, .. } => header_value_ok(vstd::utf8::encode_utf8(value@)),
        HeaderMutation::Replace { value, .. } => header_value_ok(vstd::utf8::encode_utf8(value@)),
        HeaderMutation::Remove { .. } => true,
    }
}

/// The header values after one accepted mutation: `Add` appends, `Replace`
/// leaves the new value alone under the name, `Remove` drops the name.
pub open spec fn mutation_applied(vals: Map<Seq<u8>, Seq<Seq<u8>>>, m: HeaderMutation) -> Map<
    Seq<u8>,
    Seq<Seq<u8>>,
> {
    let k = header_name_of(mutation_name(m))->0;
    match m {
        HeaderMutation::Add { value, .. } => values_appended(vals, k, vstd::utf8::encode_utf8(value@)),
        HeaderMutation::Replace { value, .. } => vals.insert(k, seq![vstd::utf8::encode_utf8(value@)]),
        HeaderMutation::Remove { .. } => vals.remove(k),
    }
}

/// The header values after the mutations, one after another.
pub open spec fn mutations_applied(vals: Map<Seq<u8>, Seq<Seq<u8>>>, muts: Seq<HeaderMutation>) -> Map<
    Seq<u8>,
    Seq<Seq<u8>>,
>
    decreases muts.len(),
{
    if muts.len() == 0 {
        vals
    } else {
        mutation_applied(mutations_applied(vals, muts.drop_last()), muts.last())
    }
}

/// Whether `i` is where application stops: every mutation before it is
/// accepted, and it is the end or a refused one.
pub open spec fn stops_at(muts: Seq<HeaderMutation>, i: int) -> bool {
    &&& 0 <= i <= muts.len()
    &&& forall|j: int| 0 <= j < i ==> mutation_accepted(#[trigger] muts[j])
    &&& i < muts.len() ==> !mutation_accepted(muts[i])
}

/// At most one place is where application stops.
proof fn lemma_stop_unique(muts: Seq<HeaderMutation>, i: int)
    requires
        stops_at(muts, i),
    ensures
        forall|k: int| #[trigger] stops_at(muts, k) ==> k == i,
{
    assert forall|k: int| #[trigger] stops_at(muts, k) implies k == i by {
        if k < i {
            assert(mutation_accepted(muts[k]));
        } else if k > i {
            assert(mutation_accepted(muts[i]));
        }
    }
}

/// Applies the mutations in order. The first one whose name or value does
/// not parse ends the work with a config error; the ones before it stay
/// applied.
pub fn apply_header_mutations(headers: &mut http::HeaderMap, muts: &[HeaderMutation]) -> (r: Result<
    (),
    ArcError,
>)
    requires
        header_values(*old(headers)).dom().finite(),
        header_values(*old(headers)).dom().len() + muts.len() <= HEADER_KEY_LIMIT,
    ensures
        r is Ok <==> forall|j: int| 0 <= j < muts.len() ==> mutation_accepted(#[trigger] muts@[j]),
        r is Err ==> r->Err_0 is Config,
        forall|i: int|
            stops_at(muts@, i) ==> header_values(*final(headers)) == mutations_applied(
                header_values(*old(headers)),
                #[trigger] muts@.take(i),
            ),
{
    let ghost start = header_values(*headers);
    let mut i: usize = 0;
    while i < muts.len()
        invariant
            i <= muts.len(),
            start == header_values(*old(headers)),
            forall|j: int| 0 <= j < i ==> mutation_accepted(#[trigger] muts@[j]),
            header_values(*headers) == mutations_applied(start, muts@.take(i as int)),
            header_values(*headers).dom().finite(),
            header_values(*headers).dom().len() <= start.dom().len() + i,
            start.dom().len() + muts.len() <= HEADER_KEY_LIMIT,
        decreases muts.len() - i,
    {
        let m = &muts[i];
        let name = match m {
            HeaderMutation::Add { name, .. } => name,
            HeaderMutation::Replace { name, .. } => name,
            HeaderMutation::Remove { name } => name,
        };
        let key = match parse_header_name(name.as_str().as_bytes()) {
            Ok(k) => k,
            Err(msg) => {
                proof {
                    assert(stops_at(muts@, i as int));
                    lemma_stop_unique(muts@, i as int);
                }
                return Err(ArcError::config(msg));
            },
        };
        match m {
            HeaderMutation::Add { value, .. } => {
                let v = match parse_header_value(value.as_str()) {
                    Ok(v) => v,
                    Err(msg) => {
                        proof {
                            assert(stops_at(muts@, i as int));
                            lemma_stop_unique(muts@, i as int);
                        }
                        return Err(ArcError::config(msg));
                    },
                };
                header_map_append(headers, key, v);
            },
            HeaderMutation::Replace { value, .. } => {
                let v = match parse_header_value(value.as_str()) {
                    Ok(v) => v,
                    Err(msg) => {
                        proof {
                            assert(stops_at(muts@, i as int));
                            lemma_stop_unique(muts@, i as int);
                        }
                        return Err(ArcError::config(msg));
                    },
                };
                header_map_insert(headers, key, v);
            },
            HeaderMutation::Remove { .. } => {
                header_map_remove(headers, key);
            },
        }
        proof {
            assert(muts@.take(i + 1).drop_last() =~= muts@.take(i as int));
        }
        i = i + 1;
    }
    proof {
        assert(muts@.take(muts.len() as int) =~= muts@);
        lemma_stop_unique(muts@, muts.len() as int);
    }
    Ok(())
}

/// `apply_header_mutations` where the map has room for the changes:
/// `None`, with the map untouched, when its names and the mutations
/// together exceed `HEADER_KEY_LIMIT`.
pub fn apply_header_mutations_with_room(headers: &mut http::HeaderMap, muts: &[HeaderMutation]) -> (r:
    Option<Result<(), ArcError>>)
    ensures
        r is None <==> header_values(*old(headers)).dom().len() + muts.len() > HEADER_KEY_LIMIT,
        r is None ==> *final(headers) == *old(headers),
        r matches Some(res) ==> {
            &&& res is Ok <==> forall|j: int| 0 <= j < muts.len() ==> mutation_accepted(#[trigger] muts@[j])
            &&& res is Err ==> res->Err_0 is Config
            &&& forall|i: int|
                stops_at(muts@, i) ==> header_values(*final(headers)) == mutations_applied(
                    header_values(*old(headers)),
                    #[trigger] muts@.take(i),
                )
        },
{
    let count = header_key_count(headers);
    if count > HEADER_KEY_LIMIT || muts.len() > HEADER_KEY_LIMIT - count {
        return None;
    }
    Some(apply_header_mutations(headers, muts))
}

} // verus!
