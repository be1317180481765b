use vstd::prelude::*;
use vstd::string::StrSliceExecFns;
use vstd::string::StringSliceAdditionalSpecFns;
use crate::text::{is_space, lead_spaces, trail_spaces, trimmed, trim_str, utf8, u64_from_bytes, parse_u64, str_eq, all_digits, digits_value, is_digit_byte};
use crate::ascii::{pos_from, find_byte, lemma_pos_from};

verus! {

/// An ASCII decimal digit character.
pub open spec fn is_digit_char(c: char) -> bool {
    '0' <= c && c <= '9'
}

/// Number of leading ASCII digits of `s`.
pub open spec fn lead_digits(s: Seq<char>) -> nat
    decreases s.len(),
{
    if s.len() > 0 && is_digit_char(s[0]) { 1 + lead_digits(s.drop_first()) } else { 0 }
}

/// A number and its unit: the leading ASCII digits of `s` (at least one)
/// and the trimmed rest, `s` when there is no rest.
pub open spec fn num_unit(s: Seq<char>) -> Option<(Seq<char>, Seq<char>)> {
    let k = lead_digits(s);
    if k == 0 {
        None
    } else if trimmed(s.skip(k as int)).len() == 0 {
        Some((s.take(k as int), seq!['s']))
    } else {
        Some((s.take(k as int), trimmed(s.skip(k as int))))
    }
}

proof fn lemma_lead_digits(s: Seq<char>, i: int)
    requires
        0 <= i <= s.len(),
        forall|j: int| 0 <= j < i ==> is_digit_char(s[j]),
    ensures
        lead_digits(s) == i + lead_digits(s.skip(i)),
    decreases i,
{
    if i > 0 {
        lemma_lead_digits(s.drop_first(), i - 1);
        assert(s.drop_first().skip(i - 1) =~= s.skip(i));
    } else {
        assert(s.skip(0) =~= s);
    }
}

/// Splits `5m` into `5` and `m` (a bare number gets unit `s`).
pub fn split_num_unit<'a>(s: &'a str) -> (r: Option<(&'a str, &'a str)>)
    ensures
        r matches Some((n, u)) ==> num_unit(s@) == Some((n@, u@)),
        r is None ==> num_unit(s@) is None,
{
    let len = s.unicode_len();
    let mut k: usize = 0;
    while k < len && is_ascii_digit_char(s.get_char(k))
        invariant
            len == s@.len(),
            k <= len,
            forall|j: int| 0 <= j < k ==> is_digit_char(s@[j]),
        decreases len - k,
    {
        k = k + 1;
    }
    proof {
        lemma_lead_digits(s@, k as int);
        if k < len {
            assert(s@.skip(k as int)[0] == s@[k as int]);
        }
        assert(lead_digits(s@.skip(k as int)) == 0);
    }
    if k == 0 {
        return None;
    }
    let num = s.substring_char(0, k);
    let unit = trim_str(s.substring_char(k, len));
    proof {
        assert(s@.subrange(k as int, len as int) =~= s@.skip(k as int));
        assert(s@.subrange(0, k as int) =~= s@.take(k as int));
    }
    if unit.unicode_len() == 0 {
        proof {
            reveal_strlit("s");
            assert("s"@ =~= seq!['s']);
        }
        return Some((num, "s"));
    }
    Some((num, unit))
}

fn is_ascii_digit_char(c: char) -> (r: bool)
    ensures
        r == is_digit_char(c),
{
    '0' <= c && c <= '9'
}

/// `a * b`, saturated at `u64::MAX`.
pub open spec fn sat_mul(a: u64, b: u64) -> u64 {
    if a * b > u64::MAX { u64::MAX } else { (a * b) as u64 }
}

/// A duration such as `500ms`, `30s`, `5m`, `2h`, `7` (seconds) or `0`,
/// in nanoseconds. Minutes and hours saturate at `u64::MAX` seconds.
pub open spec fn duration_nanos(s: Seq<char>) -> Option<u128> {
    let t = trimmed(s);
    if t.len() == 0 {
        None
    } else if t == seq!['0'] {
        Some(0)
    } else {
        match num_unit(t) {
            None => None,
            Some((num, unit)) => match u64_from_bytes(utf8(num)) {
                None => None,
                Some(n) => if unit == seq!['m', 's'] {
                    Some((n * 1_000_000) as u128)
                } else if unit == seq!['s'] {
                    Some((n * 1_000_000_000) as u128)
                } else if unit == seq!['m'] {
                    Some((sat_mul(n, 60) * 1_000_000_000) as u128)
                } else if unit == seq!['h'] {
                    Some((sat_mul(n, 3600) * 1_000_000_000) as u128)
                } else {
                    None
                },
            },
        }
    }
}

fn sat_mul_exec(a: u64, b: u64) -> (r: u64)
    ensures
        r == sat_mul(a, b),
{
    match a.checked_mul(b) {
        Some(v) => v,
        None => u64::MAX,
    }
}

/// Parses a duration such as `500ms`, `30s`, `5m`, `2h` or a bare number of
/// seconds; the result is in nanoseconds.
pub fn parse_duration(s: &str) -> (r: Option<u128>)
    ensures
        r == duration_nanos(s@),
{
    let t = trim_str(s);
    if t.unicode_len() == 0 {
        return None;
    }
    proof {
        reveal_strlit("0");
        assert("0"@ =~= seq!['0']);
    }
    if str_eq(t, "0") {
        return Some(0);
    }
    let (num, unit) = match split_num_unit(t) {
        Some(p) => p,
        None => {
            return None;
        },
    };
    let n = match parse_u64(num.as_bytes()) {
        Some(v) => v,
        None => {
            return None;
        },
    };
    proof {
        reveal_strlit("ms");
        reveal_strlit("s");
        reveal_strlit("m");
        reveal_strlit("h");
        assert("ms"@ =~= seq!['m', 's']);
        assert("s"@ =~= seq!['s']);
        assert("m"@ =~= seq!['m']);
        assert("h"@ =~= seq!['h']);
        assert(n * 1_000_000_000 <= u64::MAX * 1_000_000_000) by (nonlinear_arith)
            requires
                n <= u64::MAX,
        ;
    }
    if str_eq(unit, "ms") {
        Some((n as u128) * 1_000_000u128)
    } else if str_eq(unit, "s") {
        Some((n as u128) * 1_000_000_000u128)
    } else if str_eq(unit, "m") {
        let m = sat_mul_exec(n, 60);
        proof {
            assert(m * 1_000_000_000 <= u64::MAX * 1_000_000_000) by (nonlinear_arith)
                requires
                    m <= u64::MAX,
            ;
        }
        Some((m as u128) * 1_000_000_000u128)
    } else if str_eq(unit, "h") {
        let h = sat_mul_exec(n, 3600);
        proof {
            assert(h * 1_000_000_000 <= u64::MAX * 1_000_000_000) by (nonlinear_arith)
                requires
                    h <= u64::MAX,
            ;
        }
        Some((h as u128) * 1_000_000_000u128)
    } else {
        None
    }
}

/// Whether a status code matches a pattern: `4xx` style classes `1xx` to
/// `5xx`, or an exact code; no code never matches.
pub open spec fn status_matches(code: Option<u64>, pat: Seq<char>) -> bool {
    match code {
        None => false,
        Some(c) => {
            let p = utf8(trimmed(pat));
            if p.len() == 3 && p[1] == 0x78u8 && p[2] == 0x78u8 {
                0x31u8 <= p[0] && p[0] <= 0x35u8 && (p[0] - 0x30) * 100 <= c && c < (p[0] - 0x30) * 100 + 100
            } else {
                u64_from_bytes(p) == Some(c)
            }
        },
    }
}

/// Matches a status code against `5xx`-style classes or an exact code.
pub fn match_status(code: Option<u64>, pat: &str) -> (r: bool)
    ensures
        r == status_matches(code, pat@),
{
    let c = match code {
        Some(c) => c,
        None => {
            return false;
        },
    };
    let p = trim_str(pat).as_bytes();
    if p.len() == 3 && p[1] == 0x78u8 && p[2] == 0x78u8 {
        let d = p[0];
        if d < 0x31u8 || d > 0x35u8 {
            return false;
        }
        let base = ((d - 0x30u8) as u64) * 100;
        return c >= base && c < base + 100;
    }
    match parse_u64(p) {
        Some(exact) => c == exact,
        None => false,
    }
}

/// The fields of one access-log line that the filters look at (absent or
/// non-text fields as empty text).
#[derive(Clone, Debug)]
pub struct LogFields {
    pub level: String,
    pub route: String,
    pub trace_id: String,
    pub client_ip: String,
    pub upstream: String,
    pub status: Option<u64>,
}

/// Log filters; each one given must match.
#[derive(Clone, Debug)]
pub struct LogFilters {
    pub level: Option<String>,
    pub route: Option<String>,
    pub status: Option<String>,
    pub trace_id: Option<String>,
    pub client_ip: Option<String>,
    pub upstream: Option<String>,
}

/// A text filter given holds exactly when the field equals it.
pub open spec fn text_filter_ok(filter: Option<String>, field: String) -> bool {
    match filter {
        None => true,
        Some(f) => field@ == f@,
    }
}

/// Whether a log line passes every filter given.
pub open spec fn filters_pass(v: LogFields, f: LogFilters) -> bool {
    &&& text_filter_ok(f.level, v.level)
    &&& text_filter_ok(f.route, v.route)
    &&& text_filter_ok(f.trace_id, v.trace_id)
    &&& text_filter_ok(f.client_ip, v.client_ip)
    &&& text_filter_ok(f.upstream, v.upstream)
    &&& match f.status {
        None => true,
        Some(p) => status_matches(v.status, p@),
    }
}

fn text_filter(filter: &Option<String>, field: &String) -> (r: bool)
    ensures
        r == text_filter_ok(*filter, *field),
{
    match filter {
        None => true,
        Some(f) => str_eq(field.as_str(), f.as_str()),
    }
}

/// Whether a log line passes every filter given.
pub fn matches_filters(v: &LogFields, f: &LogFilters) -> (r: bool)
    ensures
        r == filters_pass(*v, *f),
{
    if !text_filter(&f.level, &v.level) {
        return false;
    }
    if !text_filter(&f.route, &v.route) {
        return false;
    }
    if !text_filter(&f.trace_id, &v.trace_id) {
        return false;
    }
    if !text_filter(&f.client_ip, &v.client_ip) {
        return false;
    }
    if !text_filter(&f.upstream, &v.upstream) {
        return false;
    }
    match &f.status {
        None => true,
        Some(p) => match_status(v.status, p.as_str()),
    }
}

/// Every filter that is given must hold: a text filter (level, route,
/// trace id, client address, upstream) that differs from the line's field,
/// or a status pattern the line's status does not match, rejects the line;
/// a line that agrees with every given filter passes, and with no filter
/// given every line passes.
pub proof fn law_every_given_filter_must_hold(v: LogFields, f: LogFilters)
    ensures
        f.level matches Some(x) && x@ != v.level@ ==> !filters_pass(v, f),
        f.route matches Some(x) && x@ != v.route@ ==> !filters_pass(v, f),
        f.trace_id matches Some(x) && x@ != v.trace_id@ ==> !filters_pass(v, f),
        f.client_ip matches Some(x) && x@ != v.client_ip@ ==> !filters_pass(v, f),
        f.upstream matches Some(x) && x@ != v.upstream@ ==> !filters_pass(v, f),
        f.status matches Some(p) && !status_matches(v.status, p@) ==> !filters_pass(v, f),
        (f.level matches Some(x) ==> x@ == v.level@) && (f.route matches Some(x) ==> x@ == v.route@) && (
        f.trace_id matches Some(x) ==> x@ == v.trace_id@) && (f.client_ip matches Some(x) ==> x@
            == v.client_ip@) && (f.upstream matches Some(x) ==> x@ == v.upstream@) && (f.status matches Some(
            p,
        ) ==> status_matches(v.status, p@)) ==> filters_pass(v, f),
{
}

/// A status class `Nxx` (N from 1 to 5) matches exactly the codes from
/// N·100 up to N·100 + 99, and no line without a status.
pub proof fn law_status_class_is_its_hundred(d: char, c: u64)
    requires
        '1' <= d <= '5',
    ensures
        status_matches(Some(c), seq![d, 'x', 'x']) <==> (d as int - 48) * 100 <= c < (d as int - 48) * 100
            + 100,
        !status_matches(None, seq![d, 'x', 'x']),
{
    let pat = seq![d, 'x', 'x'];
    assert(!is_space(d));
    assert(!is_space('x'));
    assert(lead_spaces(pat) == 0);
    assert(pat.skip(0) =~= pat);
    assert(pat.last() == 'x');
    assert(trail_spaces(pat) == 0);
    assert(pat.take(3) =~= pat);
    assert(trimmed(pat) == pat);
    assert(vstd::utf8::is_ascii_chars(pat));
    vstd::utf8::is_ascii_chars_encode_utf8(pat);
    let p = utf8(pat);
    assert(p.len() == 3);
    assert(p[0] == d as u8);
    assert(p[1] == 0x78u8);
    assert(p[2] == 0x78u8);
}

/// A three-digit status pattern matches exactly the code it spells.
pub proof fn law_status_digits_match_that_code(a: char, b: char, d: char, c: u64)
    requires
        '0' <= a <= '9',
        '0' <= b <= '9',
        '0' <= d <= '9',
    ensures
        status_matches(Some(c), seq![a, b, d]) <==> c == (a as int - 48) * 100 + (b as int - 48) * 10 + (d as int
            - 48),
{
    let pat = seq![a, b, d];
    assert(!is_space(a));
    assert(!is_space(d));
    assert(lead_spaces(pat) == 0);
    assert(pat.skip(0) =~= pat);
    assert(pat.last() == d);
    assert(trail_spaces(pat) == 0);
    assert(pat.take(3) =~= pat);
    assert(trimmed(pat) == pat);
    assert(vstd::utf8::is_ascii_chars(pat));
    vstd::utf8::is_ascii_chars_encode_utf8(pat);
    let p = utf8(pat);
    assert(p.len() == 3);
    assert(p[0] == a as u8 && p[1] == b as u8 && p[2] == d as u8);
    assert(p[2] != 0x78u8);
    assert(all_digits(p)) by {
        assert(is_digit_byte(p[0]) && is_digit_byte(p[1]) && is_digit_byte(p[2]));
    }
    let p1 = p.drop_last();
    let p2 = p1.drop_last();
    let p3 = p2.drop_last();
    assert(p3.len() == 0);
    assert(digits_value(p3) == 0);
    assert(p2.last() == p[0]);
    assert(digits_value(p2) == p[0] - 0x30);
    assert(p1.last() == p[1]);
    assert(digits_value(p1) == (p[0] - 0x30) * 10 + (p[1] - 0x30));
    assert(digits_value(p) == ((p[0] - 0x30) * 10 + (p[1] - 0x30)) * 10 + (p[2] - 0x30));
    assert(digits_value(p) == (a as int - 48) * 100 + (b as int - 48) * 10 + (d as int - 48));
}

/// Whether a line with timestamp `ts_nanos` (`None` when it could not be
/// read) is recent enough: no cutoff keeps everything, and so does an
/// unreadable timestamp.
pub fn passes_cutoff(ts_nanos: Option<i128>, cutoff_unix_nanos: Option<i128>) -> (r: bool)
    ensures
        r == match cutoff_unix_nanos {
            None => true,
            Some(c) => match ts_nanos {
                None => true,
                Some(n) => n >= c,
            },
        },
{
    match cutoff_unix_nanos {
        None => true,
        Some(c) => match ts_nanos {
            None => true,
            Some(n) => n >= c,
        },
    }
}

/// The cutoff for a window: `now - window`, saturated at `i128::MIN`.
pub fn cutoff_nanos(now_unix_nanos: i128, window_nanos: u128) -> (r: i128)
    requires
        window_nanos <= i128::MAX,
    ensures
        r == (if now_unix_nanos - window_nanos < i128::MIN { i128::MIN } else { (now_unix_nanos - window_nanos) as i128 }),
{
    let w = window_nanos as i128;
    if now_unix_nanos < i128::MIN + w {
        i128::MIN
    } else {
        now_unix_nanos - w
    }
}

/// Byte `i` of `b` starts a character (or is the end).
pub open spec fn char_start(b: Seq<u8>, i: int) -> bool {
    i == b.len() || (0 <= i < b.len() && (b[i] < 0x80 || b[i] >= 0xC0))
}

/// What `i32::from_str` gives for a short field (at most nine bytes, so it
/// cannot overflow): an optional sign, then one or more decimal digits.
pub open spec fn small_int(s: Seq<u8>) -> Option<int> {
    if s.len() > 0 && s[0] == 0x2D {
        let d = s.skip(1);
        if d.len() == 0 || !all_digits(d) {
            None
        } else {
            Some(-digits_value(d))
        }
    } else {
        let d = if s.len() > 0 && s[0] == 0x2B { s.skip(1) } else { s };
        if d.len() == 0 || !all_digits(d) {
            None
        } else {
            Some(digits_value(d))
        }
    }
}

/// The number in bytes `a..e`, when both ends start characters.
pub open spec fn field_at(b: Seq<u8>, a: int, e: int) -> Option<int> {
    if !char_start(b, a) || !char_start(b, e) {
        None
    } else {
        small_int(b.subrange(a, e))
    }
}

/// The index of the last `c` in `s` before `i`, or -1.
pub open spec fn last_pos(s: Seq<u8>, c: u8, i: int) -> int
    decreases i,
{
    if i <= 0 {
        -1
    } else if s[i - 1] == c {
        i - 1
    } else {
        last_pos(s, c, i - 1)
    }
}

/// The six date and time fields of `YYYY-MM-DDTHH:MM:SS...`, each required.
pub open spec fn date_fields(b: Seq<u8>) -> Option<(int, int, int, int, int, int)> {
    if b.len() < 20 {
        None
    } else {
        match (field_at(b, 0, 4), field_at(b, 5, 7), field_at(b, 8, 10), field_at(b, 11, 13), field_at(b, 14, 16), field_at(b, 17, 19)) {
            (Some(y), Some(mo), Some(d), Some(h), Some(mi), Some(s)) => Some((y, mo, d, h, mi, s)),
            _ => None,
        }
    }
}

/// The fraction between the first `.` and the last `Z` cannot be cut out
/// when the `Z` comes first.
pub open spec fn fraction_misplaced(b: Seq<u8>) -> bool {
    let dot = pos_from(b, 0x2E, 0);
    let z = last_pos(b, 0x5A, b.len() as int);
    dot < b.len() && z >= 0 && dot + 1 > z
}

/// The nanoseconds: exactly nine digits between the first `.` and the last
/// `Z`, else 0.
pub open spec fn fraction_nanos(b: Seq<u8>) -> int {
    let dot = pos_from(b, 0x2E, 0);
    let z = last_pos(b, 0x5A, b.len() as int);
    if dot < b.len() && z >= 0 && dot + 1 <= z {
        let f = b.subrange(dot + 1, z);
        if f.len() == 9 && all_digits(f) {
            digits_value(f)
        } else {
            0
        }
    } else {
        0
    }
}

/// The fields of an RFC 3339 timestamp as the log lines write it.
#[derive(Clone, Copy, Debug, PartialEq, Eq)]
pub struct TimestampFields {
    pub year: i32,
    pub mon: i32,
    pub day: i32,
    pub hour: i32,
    pub min: i32,
    pub sec: i32,
    pub nanos: i32,
}

/// The value of the decimal digits in bytes `a..e` (at most nine), if
/// every byte there is one.
fn digits_in(b: &[u8], a: usize, e: usize) -> (r: Option<i32>)
    requires
        a <= e <= b@.len(),
        e - a <= 9,
    ensures
        r == if all_digits(b@.subrange(a as int, e as int)) {
            Some(digits_value(b@.subrange(a as int, e as int)) as i32)
        } else {
            None::<i32>
        },
        r matches Some(x) ==> x == digits_value(b@.subrange(a as int, e as int)) && 0 <= x < 1_000_000_000,
{
    let ghost d = b@.subrange(a as int, e as int);
    let mut v: i64 = 0;
    let mut i = a;
    let ghost mut bound: int = 0;
    proof {
        assert(d.take(0) =~= Seq::<u8>::empty());
    }
    while i < e
        invariant
            a <= i <= e,
            e - a <= 9,
            e <= b@.len(),
            d == b@.subrange(a as int, e as int),
            forall|j: int| 0 <= j < i - a ==> #[trigger] is_digit_byte(d[j]),
            v == digits_value(d.take(i - a)),
            0 <= v <= bound,
            bound + 1 == pow10((i - a) as nat),
        decreases e - i,
    {
        if !(0x30 <= b[i] && b[i] <= 0x39) {
            proof {
                assert(!is_digit_byte(d[i - a]));
            }
            return None;
        }
        proof {
            assert(d.take(i - a + 1).drop_last() =~= d.take(i - a));
            assert(d.take(i - a + 1).last() == b@[i as int]);
            lemma_pow10_le((i - a) as nat, 9);
            lemma_pow10_nine();
            bound = bound * 10 + 9;
        }
        v = v * 10 + (b[i] - 0x30) as i64;
        i = i + 1;
    }
    proof {
        assert(d.take(d.len() as int) =~= d);
        lemma_pow10_le((e - a) as nat, 9);
        lemma_pow10_nine();
    }
    Some(v as i32)
}

fn small_field(b: &[u8], a: usize, e: usize) -> (r: Option<i32>)
    requires
        a <= e <= b@.len(),
        e - a <= 9,
    ensures
        match field_at(b@, a as int, e as int) {
            None => r is None,
            Some(v) => r matches Some(x) && x == v,
        },
{
    let n = b.len();
    if !(a == n || b[a] < 0x80 || b[a] >= 0xC0) || !(e == n || b[e] < 0x80 || b[e] >= 0xC0) {
        return None;
    }
    let ghost s = b@.subrange(a as int, e as int);
    if a < e && b[a] == 0x2D {
        proof {
            assert(b@.subrange(a + 1, e as int) =~= s.skip(1));
        }
        if a + 1 == e {
            return None;
        }
        match digits_in(b, a + 1, e) {
            Some(v) => Some(-v),
            None => None,
        }
    } else {
        let start = if a < e && b[a] == 0x2B { a + 1 } else { a };
        proof {
            if s.len() > 0 && s[0] == 0x2B {
                assert(b@.subrange(start as int, e as int) =~= s.skip(1));
            } else {
                assert(b@.subrange(start as int, e as int) =~= s);
            }
        }
        if start == e {
            return None;
        }
        digits_in(b, start, e)
    }
}

pub open spec fn pow10(k: nat) -> int
    decreases k,
{
    if k == 0 {
        1
    } else {
        10 * pow10((k - 1) as nat)
    }
}

proof fn lemma_pow10_le(k: nat, m: nat)
    requires
        k <= m,
    ensures
        1 <= pow10(k) <= pow10(m),
    decreases m,
{
    if k < m {
        lemma_pow10_le(k, (m - 1) as nat);
    } else if m > 0 {
        lemma_pow10_le(0, (m - 1) as nat);
    }
}

proof fn lemma_pow10_nine()
    ensures
        pow10(9) == 1_000_000_000,
{
    reveal_with_fuel(pow10, 10);
}

proof fn lemma_last_pos(s: Seq<u8>, c: u8, i: int)
    requires
        0 <= i <= s.len(),
    ensures
        -1 <= last_pos(s, c, i) < i,
        last_pos(s, c, i) >= 0 ==> s[last_pos(s, c, i)] == c,
    decreases i,
{
    if i > 0 && s[i - 1] != c {
        lemma_last_pos(s, c, i - 1);
    }
}

fn last_byte(b: &[u8], c: u8) -> (r: Option<usize>)
    ensures
        r == if last_pos(b@, c, b@.len() as int) < 0 {
            None::<usize>
        } else {
            Some(last_pos(b@, c, b@.len() as int) as usize)
        },
{
    let mut i: usize = b.len();
    while i > 0 && b[i - 1] != c
        invariant
            i <= b@.len(),
            last_pos(b@, c, b@.len() as int) == last_pos(b@, c, i as int),
        decreases i,
    {
        i = i - 1;
    }
    if i == 0 {
        None
    } else {
        Some(i - 1)
    }
}

/// The fields of a timestamp written `YYYY-MM-DDTHH:MM:SS.NNNNNNNNNZ`
/// (the fraction is optional and counts only with exactly nine digits);
/// `None` when a field is missing or not a number.  A `Z` before the first
/// `.` cannot be read.
pub fn timestamp_fields(ts: &str) -> (r: Option<TimestampFields>)
    requires
        date_fields(ts.spec_bytes()) is Some ==> !fraction_misplaced(ts.spec_bytes()),
    ensures
        match date_fields(ts.spec_bytes()) {
            None => r is None,
            Some((y, mo, d, h, mi, s)) => r matches Some(f) && f.year == y && f.mon == mo && f.day == d && f.hour == h
                && f.min == mi && f.sec == s && f.nanos == fraction_nanos(ts.spec_bytes()),
        },
{
    let b = ts.as_bytes();
    if b.len() < 20 {
        return None;
    }
    let year = match small_field(b, 0, 4) {
        Some(x) => x,
        None => {
            return None;
        },
    };
    let mon = match small_field(b, 5, 7) {
        Some(x) => x,
        None => {
            return None;
        },
    };
    let day = match small_field(b, 8, 10) {
        Some(x) => x,
        None => {
            return None;
        },
    };
    let hour = match small_field(b, 11, 13) {
        Some(x) => x,
        None => {
            return None;
        },
    };
    let min = match small_field(b, 14, 16) {
        Some(x) => x,
        None => {
            return None;
        },
    };
    let sec = match small_field(b, 17, 19) {
        Some(x) => x,
        None => {
            return None;
        },
    };
    let mut nanos: i32 = 0;
    let dot = find_byte(b, 0x2E, 0);
    let z = last_byte(b, 0x5A);
    proof {
        lemma_pos_from(b@, 0x2E, 0);
        lemma_last_pos(b@, 0x5A, b@.len() as int);
    }
    if dot < b.len() {
        match z {
            Some(zu) => {
                if zu - dot == 10 {
                    match digits_in(b, dot + 1, zu) {
                        Some(x) => {
                            nanos = x;
                        },
                        None => {},
                    }
                }
            },
            None => {},
        }
    }
    Some(TimestampFields { year, mon, day, hour, min, sec, nanos })
}

/// Unix time in nanoseconds from seconds since the epoch (as the C library
/// converts the fields) and the nanoseconds; times before the epoch are not
/// read.
pub fn unix_nanos(secs: i64, nanos: i32) -> (r: Option<i128>)
    ensures
        r == if secs < 0 { None::<i128> } else { Some((secs * 1_000_000_000 + nanos) as i128) },
{
    if secs < 0 {
        return None;
    }
    Some(secs as i128 * 1_000_000_000 + nanos as i128)
}

/// Whether reading `ts` would have to cut a fraction that ends before it
/// starts: the date and time fields are all there, but the last `Z` comes
/// before the first `.` ([`timestamp_fields`] is not defined there).
pub fn fraction_cut_impossible(ts: &str) -> (r: bool)
    ensures
        r == (date_fields(ts.spec_bytes()) is Some && fraction_misplaced(ts.spec_bytes())),
{
    let b = ts.as_bytes();
    if b.len() < 20 {
        return false;
    }
    if small_field(b, 0, 4).is_none() || small_field(b, 5, 7).is_none() || small_field(b, 8, 10).is_none()
        || small_field(b, 11, 13).is_none() || small_field(b, 14, 16).is_none() || small_field(b, 17, 19).is_none() {
        return false;
    }
    let dot = find_byte(b, 0x2E, 0);
    let z = last_byte(b, 0x5A);
    proof {
        lemma_pos_from(b@, 0x2E, 0);
        lemma_last_pos(b@, 0x5A, b@.len() as int);
    }
    if dot >= b.len() {
        return false;
    }
    match z {
        Some(zu) => dot + 1 > zu,
        None => false,
    }
}

} // verus!
