//! A short, readable summary of what changed between two configs given as
//! JSON: one line per changed value, `path: old -> new`.
use vstd::prelude::*;

use vstd::string::StrSliceExecFns;
use crate::text::{append_decimal, dec_chars, str_eq};
use crate::control_helpers::push_diff_line;

verus! {

/// A JSON value.  Numbers keep the text JSON writes for them; arrays and
/// objects keep their compact JSON text; object members are in key order.
pub enum Json {
    Null,
    Bool(bool),
    Number(String),
    Str(String),
    Array(Vec<Json>, String),
    Object(Vec<(String, Json)>, String),
}

/// Two values are the same JSON value (numbers compare by their text).
pub open spec fn json_eq(a: Json, b: Json) -> bool
    decreases a, 0int,
{
    match a {
        Json::Null => b is Null,
        Json::Bool(x) => b matches Json::Bool(y) && x == y,
        Json::Number(x) => b matches Json::Number(y) && x@ == y@,
        Json::Str(x) => b matches Json::Str(y) && x@ == y@,
        Json::Array(xs, _) => match b {
            Json::Array(ys, _) => xs@.len() == ys@.len() && elems_eq(xs@, ys@, 0),
            _ => false,
        },
        Json::Object(ms, _) => match b {
            Json::Object(ns, _) => ms@.len() == ns@.len() && members_eq(ms@, ns@, 0),
            _ => false,
        },
    }
}

/// Elements `i..` of two arrays of the same length are the same values.
pub open spec fn elems_eq(xs: Seq<Json>, ys: Seq<Json>, i: int) -> bool
    decreases xs, xs.len() - i,
{
    if i < 0 || i >= xs.len() || i >= ys.len() {
        true
    } else {
        json_eq(xs[i], ys[i]) && elems_eq(xs, ys, i + 1)
    }
}

/// Members `i..` of two objects with as many members have the same keys
/// and values.
pub open spec fn members_eq(ms: Seq<(String, Json)>, ns: Seq<(String, Json)>, i: int) -> bool
    decreases ms, ms.len() - i,
{
    if i < 0 || i >= ms.len() || i >= ns.len() {
        true
    } else {
        ms[i].0@ == ns[i].0@ && json_eq(ms[i].1, ns[i].1) && members_eq(ms, ns, i + 1)
    }
}

fn text_eq(a: &String, b: &String) -> (r: bool)
    ensures
        r == (a@ == b@),
{
    str_eq(a.as_str(), b.as_str())
}

/// Whether two values are the same JSON value.
pub fn json_equal(a: &Json, b: &Json) -> (r: bool)
    ensures
        r == json_eq(*a, *b),
    decreases *a, 0int,
{
    match a {
        Json::Null => matches!(b, Json::Null),
        Json::Bool(x) => match b {
            Json::Bool(y) => *x == *y,
            _ => false,
        },
        Json::Number(x) => match b {
            Json::Number(y) => text_eq(x, y),
            _ => false,
        },
        Json::Str(x) => match b {
            Json::Str(y) => text_eq(x, y),
            _ => false,
        },
        Json::Array(xs, _) => match b {
            Json::Array(ys, _) => xs.len() == ys.len() && elems_equal(xs, ys, 0),
            _ => false,
        },
        Json::Object(ms, _) => match b {
            Json::Object(ns, _) => ms.len() == ns.len() && members_equal(ms, ns, 0),
            _ => false,
        },
    }
}

fn elems_equal(xs: &Vec<Json>, ys: &Vec<Json>, i: usize) -> (r: bool)
    requires
        xs@.len() == ys@.len(),
        i <= xs@.len(),
    ensures
        r == elems_eq(xs@, ys@, i as int),
    decreases xs@, xs@.len() - i,
{
    if i >= xs.len() {
        return true;
    }
    json_equal(&xs[i], &ys[i]) && elems_equal(xs, ys, i + 1)
}

fn members_equal(ms: &Vec<(String, Json)>, ns: &Vec<(String, Json)>, i: usize) -> (r: bool)
    requires
        ms@.len() == ns@.len(),
        i <= ms@.len(),
    ensures
        r == members_eq(ms@, ns@, i as int),
    decreases ms@, ms@.len() - i,
{
    if i >= ms.len() {
        return true;
    }
    text_eq(&ms[i].0, &ns[i].0) && json_equal(&ms[i].1, &ns[i].1) && members_equal(ms, ns, i + 1)
}

/// How many bytes UTF-8 takes for `c`.
pub open spec fn char_width(c: char) -> nat {
    if (c as u32) < 0x80 {
        1
    } else if (c as u32) < 0x800 {
        2
    } else if (c as u32) < 0x10000 {
        3
    } else {
        4
    }
}

/// How many bytes UTF-8 takes for `s`.
pub open spec fn byte_len(s: Seq<char>) -> nat
    decreases s.len(),
{
    if s.len() == 0 {
        0
    } else {
        byte_len(s.drop_last()) + char_width(s.last())
    }
}

/// A value's text as a summary line shows it: up to 120 bytes as it is,
/// longer text cut to its first 117 bytes and `...`.  `None` when byte 117
/// falls inside a character (the cut is not defined there).
pub open spec fn shorten(s: Seq<char>) -> Option<Seq<char>> {
    if byte_len(s) <= 120 {
        Some(s)
    } else if exists|k: int| 0 <= k <= s.len() && byte_len(s.take(k)) == 117 {
        Some(s.take(choose|k: int| 0 <= k <= s.len() && byte_len(s.take(k)) == 117) + "..."@)
    } else {
        None
    }
}

proof fn lemma_byte_len_step(s: Seq<char>, k: int)
    requires
        0 <= k < s.len(),
    ensures
        byte_len(s.take(k + 1)) == byte_len(s.take(k)) + char_width(s[k]),
{
    assert(s.take(k + 1).drop_last() =~= s.take(k));
}

/// Longer prefixes take more bytes.
proof fn lemma_byte_len_mono(s: Seq<char>, j: int, k: int)
    requires
        0 <= j < k <= s.len(),
    ensures
        byte_len(s.take(j)) < byte_len(s.take(k)),
    decreases k - j,
{
    lemma_byte_len_step(s, k - 1);
    if j < k - 1 {
        lemma_byte_len_mono(s, j, k - 1);
    }
}

fn char_width_of(c: char) -> (r: usize)
    ensures
        r == char_width(c),
{
    let u = c as u32;
    if u < 0x80 {
        1
    } else if u < 0x800 {
        2
    } else if u < 0x10000 {
        3
    } else {
        4
    }
}

/// A value's text as a summary line shows it (see [`shorten`]); `None`
/// where the cut would fall inside a character.
pub fn shorten_text(s: String) -> (r: Option<String>)
    ensures
        r is None <==> shorten(s@) is None,
        r matches Some(t) ==> t@ == shorten(s@).unwrap(),
{
    let n = s.as_str().unicode_len();
    let mut i: usize = 0;
    let mut b: usize = 0;
    let mut cut: Option<usize> = None;
    proof {
        assert(s@.take(0) =~= Seq::<char>::empty());
    }
    while i < n && b <= 120
        invariant
            n == s@.len(),
            i <= n,
            b == byte_len(s@.take(i as int)),
            b <= 124,
            cut matches Some(k) ==> k <= i && byte_len(s@.take(k as int)) == 117,
            cut is None ==> forall|j: int| 0 <= j <= i ==> byte_len(#[trigger] s@.take(j)) != 117,
        decreases n - i,
    {
        let c = s.as_str().get_char(i);
        proof {
            lemma_byte_len_step(s@, i as int);
        }
        b = b + char_width_of(c);
        i = i + 1;
        if b == 117 && cut.is_none() {
            cut = Some(i);
        }
    }
    if b <= 120 {
        proof {
            assert(s@.take(i as int) =~= s@);
        }
        return Some(s);
    }
    proof {
        assert(s@.take(n as int) =~= s@);
        if i < n {
            lemma_byte_len_mono(s@, i as int, n as int);
        }
        assert(byte_len(s@) > 120);
    }
    if cut.is_none() {
        proof {
            if exists|k: int| 0 <= k <= s@.len() && byte_len(s@.take(k)) == 117 {
                let k = choose|k: int| 0 <= k <= s@.len() && byte_len(s@.take(k)) == 117;
                if k > i {
                    lemma_byte_len_mono(s@, i as int, k);
                }
                assert(byte_len(s@.take(k)) == 117);
            }
        }
        return None;
    }
    proof {
        if cut is None {
            let k = choose|k: int| 0 <= k <= s@.len() && byte_len(s@.take(k)) == 117;
            if k > i {
                lemma_byte_len_mono(s@, i as int, k);
            }
            assert(byte_len(s@.take(k)) == 117);
        }
    }
    let k = cut.unwrap();
    proof {
        let kc = choose|k: int| 0 <= k <= s@.len() && byte_len(s@.take(k)) == 117;
        if kc < k {
            lemma_byte_len_mono(s@, kc, k as int);
        } else if kc > k {
            lemma_byte_len_mono(s@, k as int, kc);
        }
        assert(s@.subrange(0, k as int) =~= s@.take(k as int));
    }
    let mut out = String::from_str(s.as_str().substring_char(0, k));
    out.append("...");
    Some(out)
}

/// The text a value shows in a summary line before shortening.
pub open spec fn repr(v: Json) -> Seq<char> {
    match v {
        Json::Null => "null"@,
        Json::Bool(b) => if b { "true"@ } else { "false"@ },
        Json::Number(t) => t@,
        Json::Str(t) => "\""@ + t@ + "\""@,
        Json::Array(_, t) => t@,
        Json::Object(_, t) => t@,
    }
}

/// How a changed array length shows.
pub open spec fn len_text(n: nat) -> Seq<char> {
    "<len:"@ + dec_chars(n) + ">"@
}

/// The path of member `k` under `p`.
pub open spec fn key_path(p: Seq<char>, k: Seq<char>) -> Seq<char> {
    if p.len() == 0 {
        k
    } else {
        p + "."@ + k
    }
}

/// The path of element `i` under `p`.
pub open spec fn index_path(p: Seq<char>, i: nat) -> Seq<char> {
    p + "["@ + dec_chars(i) + "]"@
}

/// `a` comes before `b` in key order (by code points, as their UTF-8
/// bytes compare).
pub open spec fn key_lt(a: Seq<char>, b: Seq<char>) -> bool
    decreases a.len(),
{
    if a.len() == 0 {
        b.len() > 0
    } else if b.len() == 0 {
        false
    } else if a[0] != b[0] {
        (a[0] as u32) < (b[0] as u32)
    } else {
        key_lt(a.drop_first(), b.drop_first())
    }
}

/// One line of a summary: the path, and the old and new text (`None`
/// where shortening is not defined).
pub type DiffItem = (Seq<char>, Option<Seq<char>>, Option<Seq<char>>);

pub open spec fn leaf(p: Seq<char>, old: Json, new: Json) -> Seq<DiffItem> {
    seq![(p, shorten(repr(old)), shorten(repr(new)))]
}

/// Every change between `old` and `new` under path `p`, in order: members
/// in key order (a missing member counts as `null`), elements in order
/// after a changed length, and a line for any other changed value.
pub open spec fn diff_items(p: Seq<char>, old: Json, new: Json) -> Seq<DiffItem>
    decreases old, 0int, 0int,
{
    if json_eq(old, new) {
        Seq::empty()
    } else {
        match old {
            Json::Object(ms, _) => match new {
                Json::Object(ns, _) => member_items(p, ms@, ns@, 0, 0),
                _ => leaf(p, old, new),
            },
            Json::Array(xs, _) => match new {
                Json::Array(ys, _) => (if xs@.len() != ys@.len() {
                    seq![(p, Some(len_text(xs@.len())), Some(len_text(ys@.len())))]
                } else {
                    Seq::empty()
                }) + elem_items(p, xs@, ys@, 0),
                _ => leaf(p, old, new),
            },
            _ => leaf(p, old, new),
        }
    }
}

/// The changes of elements `i..` of two arrays (as far as both reach).
pub open spec fn elem_items(p: Seq<char>, xs: Seq<Json>, ys: Seq<Json>, i: int) -> Seq<DiffItem>
    decreases xs, xs.len() - i, 0int,
{
    if i < 0 || i >= xs.len() || i >= ys.len() {
        Seq::empty()
    } else {
        diff_items(index_path(p, i as nat), xs[i], ys[i]) + elem_items(p, xs, ys, i + 1)
    }
}

/// The changes of the members of two objects from positions `i` and `j`
/// on, merged in key order.
pub open spec fn member_items(p: Seq<char>, ms: Seq<(String, Json)>, ns: Seq<(String, Json)>, i: int, j: int) -> Seq<DiffItem>
    decreases ms, (ms.len() - i) + (ns.len() - j), 0int,
{
    if i < 0 || j < 0 || i > ms.len() || j > ns.len() || (i >= ms.len() && j >= ns.len()) {
        Seq::empty()
    } else if j >= ns.len() || (i < ms.len() && key_lt(ms[i].0@, ns[j].0@)) {
        (if ms[i].1 is Null {
            Seq::empty()
        } else {
            leaf(key_path(p, ms[i].0@), ms[i].1, Json::Null)
        }) + member_items(p, ms, ns, i + 1, j)
    } else if i >= ms.len() || key_lt(ns[j].0@, ms[i].0@) {
        (if ns[j].1 is Null {
            Seq::empty()
        } else {
            leaf(key_path(p, ns[j].0@), Json::Null, ns[j].1)
        }) + member_items(p, ms, ns, i, j + 1)
    } else {
        diff_items(key_path(p, ms[i].0@), ms[i].1, ns[j].1) + member_items(p, ms, ns, i + 1, j + 1)
    }
}

/// The line an item shows as.
pub open spec fn line_of(it: DiffItem) -> Seq<char> {
    (if it.0.len() == 0 { "<root>"@ } else { it.0 }) + ": "@ + it.1.unwrap() + " -> "@ + it.2.unwrap()
}

pub open spec fn lines_of(items: Seq<DiffItem>) -> Seq<Seq<char>> {
    items.map_values(|it: DiffItem| line_of(it))
}

/// The first `r` items of a list (all of it when shorter).
pub open spec fn first<T>(s: Seq<T>, r: int) -> Seq<T> {
    if r >= s.len() {
        s
    } else if r <= 0 {
        Seq::empty()
    } else {
        s.take(r)
    }
}

/// The first `r` items can be shown.
pub open spec fn showable(items: Seq<DiffItem>, r: int) -> bool {
    forall|k: int| 0 <= k < r && k < items.len() ==> (#[trigger] items[k]).1 is Some && items[k].2 is Some
}

pub open spec fn texts(v: Seq<String>) -> Seq<Seq<char>> {
    v.map_values(|s: String| s@)
}

proof fn lemma_first_concat<T>(a: Seq<T>, b: Seq<T>, r: int)
    requires
        r >= 0,
    ensures
        first(a + b, r) == if r <= a.len() { first(a, r) } else { a + first(b, r - a.len()) },
{
    if r <= a.len() {
        if r < a.len() + b.len() && r > 0 {
            assert((a + b).take(r) =~= a.take(r));
        } else if r == 0 {
            assert(first(a + b, r) =~= first(a, r));
        }
    } else {
        if r - a.len() < b.len() {
            assert((a + b).take(r) =~= a + b.take(r - a.len()));
        }
    }
}

proof fn lemma_lines_concat(a: Seq<DiffItem>, b: Seq<DiffItem>)
    ensures
        lines_of(a + b) == lines_of(a) + lines_of(b),
{
    assert(lines_of(a + b) =~= lines_of(a) + lines_of(b));
}

proof fn lemma_showable_split(a: Seq<DiffItem>, b: Seq<DiffItem>, r: int)
    requires
        showable(a + b, r),
    ensures
        showable(a, r),
        showable(b, r - a.len()),
{
    assert forall|k: int| 0 <= k < r && k < a.len() implies (#[trigger] a[k]).1 is Some && a[k].2 is Some by {
        assert((a + b)[k] == a[k]);
    }
    assert forall|k: int| 0 <= k < r - a.len() && k < b.len() implies (#[trigger] b[k]).1 is Some && b[k].2 is Some by {
        assert((a + b)[a.len() + k] == b[k]);
    }
}

proof fn lemma_showable_concat(a: Seq<DiffItem>, b: Seq<DiffItem>, r: int)
    ensures
        showable(a + b, r) <==> (showable(a, r) && (r <= a.len() || showable(b, r - a.len()))),
{
    if showable(a + b, r) {
        lemma_showable_split(a, b, r);
    }
    if showable(a, r) && (r <= a.len() || showable(b, r - a.len())) {
        assert forall|k: int| 0 <= k < r && k < (a + b).len() implies (#[trigger] (a + b)[k]).1 is Some && (a + b)[k].2 is Some by {
            if k < a.len() {
                assert((a + b)[k] == a[k]);
            } else {
                assert((a + b)[k] == b[k - a.len()]);
            }
        }
    }
}

fn key_less(a: &String, b: &String) -> (r: bool)
    ensures
        r == key_lt(a@, b@),
{
    let sa = a.as_str();
    let sb = b.as_str();
    let na = sa.unicode_len();
    let nb = sb.unicode_len();
    let mut i: usize = 0;
    proof {
        assert(a@.skip(0) =~= a@);
        assert(b@.skip(0) =~= b@);
    }
    while i < na && i < nb
        invariant
            sa@ == a@,
            sb@ == b@,
            na == a@.len(),
            nb == b@.len(),
            i <= na,
            i <= nb,
            key_lt(a@, b@) == key_lt(a@.skip(i as int), b@.skip(i as int)),
        decreases na - i,
    {
        let ca = sa.get_char(i);
        let cb = sb.get_char(i);
        proof {
            assert(a@.skip(i as int)[0] == ca);
            assert(b@.skip(i as int)[0] == cb);
        }
        if ca != cb {
            return (ca as u32) < (cb as u32);
        }
        proof {
            assert(a@.skip(i as int).drop_first() =~= a@.skip(i as int + 1));
            assert(b@.skip(i as int).drop_first() =~= b@.skip(i as int + 1));
        }
        i = i + 1;
    }
    i == na && i < nb
}

fn repr_text(v: &Json) -> (r: String)
    ensures
        r@ == repr(*v),
{
    match v {
        Json::Null => String::from_str("null"),
        Json::Bool(b) => if *b {
            String::from_str("true")
        } else {
            String::from_str("false")
        },
        Json::Number(t) => t.clone(),
        Json::Str(t) => {
            let mut s = String::from_str("\"");
            s.append(t.as_str());
            s.append("\"");
            s
        },
        Json::Array(_, t) => t.clone(),
        Json::Object(_, t) => t.clone(),
    }
}

fn key_path_text(p: &String, k: &String) -> (r: String)
    ensures
        r@ == key_path(p@, k@),
{
    if p.as_str().unicode_len() == 0 {
        k.clone()
    } else {
        let mut s = p.clone();
        s.append(".");
        s.append(k.as_str());
        s
    }
}

fn index_path_text(p: &String, i: usize) -> (r: String)
    ensures
        r@ == index_path(p@, i as nat),
{
    let mut s = p.clone();
    s.append("[");
    append_decimal(&mut s, i as u64);
    s.append("]");
    s
}

fn len_text_of(n: usize) -> (r: String)
    ensures
        r@ == len_text(n as nat),
{
    let mut s = String::from_str("<len:");
    append_decimal(&mut s, n as u64);
    s.append(">");
    s
}

fn push_line(path: &String, o: &String, n: &String, limit: usize, out: &mut Vec<String>)
    requires
        old(out)@.len() < limit,
    ensures
        texts(final(out)@) == texts(old(out)@).push(
            (if path@.len() == 0 { "<root>"@ } else { path@ }) + ": "@ + o@ + " -> "@ + n@,
        ),
        final(out)@.len() == old(out)@.len() + 1,
{
    let mut truncated = false;
    push_diff_line(path.as_str(), o.as_str(), n.as_str(), limit, out, &mut truncated);
    proof {
        assert(final(out)@.drop_last() =~= old(out)@) by {
            assert(out@.take(old(out)@.len() as int) == old(out)@);
        }
        assert(texts(out@) =~= texts(old(out)@).push(out@.last()@));
    }
}

/// Shows `path: old -> new` for a changed value, when both can be shown.
fn push_leaf(path: &String, before: &Json, after: &Json, limit: usize, out: &mut Vec<String>) -> (ok: bool)
    requires
        old(out)@.len() < limit,
    ensures
        ok == showable(leaf(path@, *before, *after), 1),
        ok ==> texts(final(out)@) == texts(old(out)@) + lines_of(leaf(path@, *before, *after)),
        final(out)@.len() <= limit,
{
    let o = match shorten_text(repr_text(before)) {
        Some(t) => t,
        None => {
            proof {
                assert(leaf(path@, *before, *after)[0].1 is None);
            }
            return false;
        },
    };
    let n = match shorten_text(repr_text(after)) {
        Some(t) => t,
        None => {
            proof {
                assert(leaf(path@, *before, *after)[0].2 is None);
            }
            return false;
        },
    };
    push_line(path, &o, &n, limit, out);
    proof {
        let l = leaf(path@, *before, *after);
        assert(lines_of(l) =~= seq![line_of(l[0])]);
    }
    true
}

/// Appends the summary lines of the changes between `before` and `after`
/// under `path` until `out` holds `limit` lines; `false` (and nothing more
/// said of `out`) when one of those lines cannot be shown.
fn diff_into(path: &String, before: &Json, after: &Json, limit: usize, out: &mut Vec<String>) -> (ok: bool)
    requires
        old(out)@.len() <= limit,
    ensures
        ok == showable(diff_items(path@, *before, *after), limit - old(out)@.len()),
        ok ==> texts(final(out)@) == texts(old(out)@) + lines_of(
            first(diff_items(path@, *before, *after), limit - old(out)@.len()),
        ),
        final(out)@.len() <= limit,
    decreases *before, 1int, 0int,
{
    if out.len() >= limit {
        proof {
            assert(texts(out@) =~= texts(out@) + lines_of(first(diff_items(path@, *before, *after), 0)));
        }
        return true;
    }
    if json_equal(before, after) {
        proof {
            assert(texts(out@) =~= texts(out@) + lines_of(first(diff_items(path@, *before, *after), limit - out@.len())));
        }
        return true;
    }
    match before {
        Json::Object(ms, _) => match after {
            Json::Object(ns, _) => {
                return members_into(path, ms, ns, limit, out);
            },
            _ => {},
        },
        Json::Array(xs, _) => match after {
            Json::Array(ys, _) => {
                return arrays_into(path, xs, ys, limit, out);
            },
            _ => {},
        },
        _ => {},
    }
    let ok = push_leaf(path, before, after, limit, out);
    proof {
        let l = leaf(path@, *before, *after);
        assert(diff_items(path@, *before, *after) == l);
        assert(first(l, limit - old(out)@.len()) == l);
    }
    ok
}

/// The changes between two arrays: a changed length first, then the
/// elements both have, in order.
fn arrays_into(path: &String, xs: &Vec<Json>, ys: &Vec<Json>, limit: usize, out: &mut Vec<String>) -> (ok: bool)
    requires
        old(out)@.len() < limit,
    ensures
        ({
            let items = (if xs@.len() != ys@.len() {
                seq![(path@, Some(len_text(xs@.len())), Some(len_text(ys@.len())))]
            } else {
                Seq::<DiffItem>::empty()
            }) + elem_items(path@, xs@, ys@, 0);
            &&& ok == showable(items, limit - old(out)@.len())
            &&& ok ==> texts(final(out)@) == texts(old(out)@) + lines_of(first(items, limit - old(out)@.len()))
        }),
        final(out)@.len() <= limit,
    decreases xs@, 0int, 0int,
{
    let ghost r0: int = limit - out@.len();
    let ghost out0 = texts(out@);
    let ghost head: Seq<DiffItem> = if xs@.len() != ys@.len() {
        seq![(path@, Some(len_text(xs@.len())), Some(len_text(ys@.len())))]
    } else {
        Seq::<DiffItem>::empty()
    };
    let ghost total = head + elem_items(path@, xs@, ys@, 0);
    if xs.len() != ys.len() {
        let a = len_text_of(xs.len());
        let b = len_text_of(ys.len());
        push_line(path, &a, &b, limit, out);
        proof {
            assert(lines_of(head) =~= seq![line_of(head[0])]);
        }
    }
    let ghost mut acc: Seq<DiffItem> = head;
    proof {
        if xs@.len() != ys@.len() {
            assert(first(acc, r0) == acc);
            assert(texts(out@) =~= out0 + lines_of(first(acc, r0)));
            assert(showable(acc, r0));
        } else {
            assert(texts(out@) =~= out0 + lines_of(first(acc, r0)));
        }
    }
    let n = if xs.len() < ys.len() { xs.len() } else { ys.len() };
    let mut i: usize = 0;
    while i < n && out.len() < limit
        invariant
            n <= xs@.len(),
            n <= ys@.len(),
            n == xs@.len() || n == ys@.len(),
            i <= n,
            r0 == limit - old(out)@.len(),
            out0 == texts(old(out)@),
            total == acc + elem_items(path@, xs@, ys@, i as int),
            total == head + elem_items(path@, xs@, ys@, 0),
            head == (if xs@.len() != ys@.len() {
                seq![(path@, Some(len_text(xs@.len())), Some(len_text(ys@.len())))]
            } else {
                Seq::<DiffItem>::empty()
            }),
            showable(acc, r0),
            texts(out@) == out0 + lines_of(first(acc, r0)),
            out@.len() <= limit,
        decreases n - i,
    {
        let ghost step = diff_items(index_path(path@, i as nat), xs@[i as int], ys@[i as int]);
        proof {
            assert(out@.len() == texts(out@).len());
            if acc.len() >= r0 {
                assert(first(acc, r0).len() == r0);
            }
            assert(acc.len() < r0);
            assert(first(acc, r0) == acc);
            assert(elem_items(path@, xs@, ys@, i as int) == step + elem_items(path@, xs@, ys@, i as int + 1));
            assert(total == (acc + step) + elem_items(path@, xs@, ys@, i as int + 1)) by {
                assert(acc + (step + elem_items(path@, xs@, ys@, i as int + 1)) =~= (acc + step) + elem_items(path@, xs@, ys@, i as int + 1));
            }
        }
        let child = index_path_text(path, i);
        proof {
            assert(lines_of(acc).len() == acc.len());
            assert(out@.len() == old(out)@.len() + acc.len());
        }
        let ok = diff_into(&child, &xs[i], &ys[i], limit, out);
        proof {
            lemma_showable_concat(acc, step, r0);
            lemma_showable_concat(acc + step, elem_items(path@, xs@, ys@, i as int + 1), r0);
        }
        if !ok {
            proof {
                assert(!showable(step, r0 - acc.len()));
                assert(!showable(acc + step, r0));
                assert(!showable(total, r0));
            }
            return false;
        }
        proof {
            lemma_first_concat(acc, step, r0);
            lemma_lines_concat(acc, first(step, r0 - acc.len()));
            acc = acc + step;
        }
        i = i + 1;
    }
    proof {
        if out@.len() >= limit {
            assert(out@.len() == texts(out@).len());
            assert(first(acc, r0).len() >= r0);
            assert(acc.len() >= r0);
            lemma_first_concat(acc, elem_items(path@, xs@, ys@, i as int), r0);
            lemma_showable_concat(acc, elem_items(path@, xs@, ys@, i as int), r0);
        } else {
            assert(elem_items(path@, xs@, ys@, i as int) == Seq::<DiffItem>::empty());
            assert(total == acc) by {
                assert(acc + Seq::<DiffItem>::empty() =~= acc);
            }
        }
    }
    true
}

/// The changes between two objects: their members merged in key order, a
/// member only one side has compared with `null`.
fn members_into(path: &String, ms: &Vec<(String, Json)>, ns: &Vec<(String, Json)>, limit: usize, out: &mut Vec<String>) -> (ok: bool)
    requires
        old(out)@.len() < limit,
    ensures
        ok == showable(member_items(path@, ms@, ns@, 0, 0), limit - old(out)@.len()),
        ok ==> texts(final(out)@) == texts(old(out)@) + lines_of(
            first(member_items(path@, ms@, ns@, 0, 0), limit - old(out)@.len()),
        ),
        final(out)@.len() <= limit,
    decreases ms@, 0int, 0int,
{
    let ghost r0: int = limit - out@.len();
    let ghost out0 = texts(out@);
    let ghost total = member_items(path@, ms@, ns@, 0, 0);
    let ghost mut acc: Seq<DiffItem> = Seq::empty();
    proof {
        assert(total == acc + member_items(path@, ms@, ns@, 0, 0)) by {
            assert(acc + total =~= total);
        }
        assert(texts(out@) =~= out0 + lines_of(first(acc, r0)));
    }
    let mut i: usize = 0;
    let mut j: usize = 0;
    while (i < ms.len() || j < ns.len()) && out.len() < limit
        invariant
            i <= ms@.len(),
            j <= ns@.len(),
            r0 == limit - old(out)@.len(),
            out0 == texts(old(out)@),
            total == acc + member_items(path@, ms@, ns@, i as int, j as int),
            total == member_items(path@, ms@, ns@, 0, 0),
            showable(acc, r0),
            texts(out@) == out0 + lines_of(first(acc, r0)),
            out@.len() <= limit,
        decreases (ms@.len() - i) + (ns@.len() - j),
    {
        proof {
            assert(out@.len() == texts(out@).len());
            if acc.len() >= r0 {
                assert(first(acc, r0).len() == r0);
            }
            assert(acc.len() < r0);
            assert(first(acc, r0) == acc);
            assert(lines_of(acc).len() == acc.len());
            assert(out@.len() == old(out)@.len() + acc.len());
        }
        let only_before = j >= ns.len() || (i < ms.len() && key_less(&ms[i].0, &ns[j].0));
        let only_after = !only_before && (i >= ms.len() || key_less(&ns[j].0, &ms[i].0));
        let ghost step: Seq<DiffItem>;
        let ghost ni: int;
        let ghost nj: int;
        let ok;
        if only_before {
            proof {
                step = if ms@[i as int].1 is Null {
                    Seq::empty()
                } else {
                    leaf(key_path(path@, ms@[i as int].0@), ms@[i as int].1, Json::Null)
                };
                ni = i + 1;
                nj = j as int;
            }
            ok = match &ms[i].1 {
                Json::Null => true,
                v => {
                    let child = key_path_text(path, &ms[i].0);
                    push_leaf(&child, v, &Json::Null, limit, out)
                },
            };
            proof {
                if step.len() == 1 {
                    assert(first(step, r0 - acc.len()) == step);
                    assert(showable(step, r0 - acc.len()) == showable(step, 1));
                } else {
                    assert(texts(out@) =~= texts(out@) + lines_of(first(step, r0 - acc.len())));
                }
                assert(ok == showable(step, r0 - acc.len()));
            }
            i = i + 1;
        } else if only_after {
            proof {
                step = if ns@[j as int].1 is Null {
                    Seq::empty()
                } else {
                    leaf(key_path(path@, ns@[j as int].0@), Json::Null, ns@[j as int].1)
                };
                ni = i as int;
                nj = j + 1;
            }
            ok = match &ns[j].1 {
                Json::Null => true,
                v => {
                    let child = key_path_text(path, &ns[j].0);
                    push_leaf(&child, &Json::Null, v, limit, out)
                },
            };
            proof {
                if step.len() == 1 {
                    assert(first(step, r0 - acc.len()) == step);
                    assert(showable(step, r0 - acc.len()) == showable(step, 1));
                } else {
                    assert(texts(out@) =~= texts(out@) + lines_of(first(step, r0 - acc.len())));
                }
                assert(ok == showable(step, r0 - acc.len()));
            }
            j = j + 1;
        } else {
            proof {
                step = diff_items(key_path(path@, ms@[i as int].0@), ms@[i as int].1, ns@[j as int].1);
                ni = i + 1;
                nj = j + 1;
            }
            let child = key_path_text(path, &ms[i].0);
            ok = diff_into(&child, &ms[i].1, &ns[j].1, limit, out);
            i = i + 1;
            j = j + 1;
        }
        proof {
            assert(ni == i && nj == j);
            assert(member_items(path@, ms@, ns@, i as int - (if only_after { 0int } else { 1int }), j as int - (if only_before { 0int } else { 1int }))
                == step + member_items(path@, ms@, ns@, i as int, j as int));
            assert(total == (acc + step) + member_items(path@, ms@, ns@, i as int, j as int)) by {
                assert(acc + (step + member_items(path@, ms@, ns@, i as int, j as int)) =~= (acc + step) + member_items(path@, ms@, ns@, i as int, j as int));
            }
            lemma_showable_concat(acc, step, r0);
            lemma_showable_concat(acc + step, member_items(path@, ms@, ns@, i as int, j as int), r0);
        }
        if !ok {
            proof {
                assert(!showable(step, r0 - acc.len()));
                assert(!showable(acc + step, r0));
                assert(!showable(total, r0));
            }
            return false;
        }
        proof {
            lemma_first_concat(acc, step, r0);
            lemma_lines_concat(acc, first(step, r0 - acc.len()));
            acc = acc + step;
        }
    }
    proof {
        if out@.len() >= limit {
            assert(out@.len() == texts(out@).len());
            assert(first(acc, r0).len() >= r0);
            assert(acc.len() >= r0);
            lemma_first_concat(acc, member_items(path@, ms@, ns@, i as int, j as int), r0);
            lemma_showable_concat(acc, member_items(path@, ms@, ns@, i as int, j as int), r0);
        } else {
            assert(member_items(path@, ms@, ns@, i as int, j as int) == Seq::<DiffItem>::empty());
            assert(total == acc) by {
                assert(acc + Seq::<DiffItem>::empty() =~= acc);
            }
        }
    }
    true
}

/// The summary of a change from `before` to `after` with at most `limit`
/// lines (at least one): nothing for equal values, otherwise the first
/// lines of the changes; `None` where one of those lines cannot be shown.
pub open spec fn summary_of(before: Json, after: Json, limit: nat) -> Option<Seq<Seq<char>>> {
    let lim: int = if limit < 1 { 1 } else { limit as int };
    if json_eq(before, after) {
        Some(Seq::empty())
    } else {
        let items = diff_items(Seq::empty(), before, after);
        if !showable(items, lim) {
            None
        } else {
            let ls = lines_of(first(items, lim));
            if ls.len() == 0 {
                Some(seq!["<config_changed_without_diff_entries>"@])
            } else {
                Some(ls)
            }
        }
    }
}

/// Summarizes the change between two JSON values in at most `limit` lines
/// (at least one), `path: old -> new` each; `None` where a value's text
/// would have to be cut inside a character.
pub fn summarize_json_diff(before: &Json, after: &Json, limit: usize) -> (r: Option<Vec<String>>)
    ensures
        match summary_of(*before, *after, limit as nat) {
            None => r is None,
            Some(ls) => r matches Some(v) && texts(v@) == ls,
        },
{
    let limit = if limit < 1 { 1 } else { limit };
    if json_equal(before, after) {
        let v: Vec<String> = Vec::new();
        proof {
            assert(texts(v@) =~= Seq::<Seq<char>>::empty());
        }
        return Some(v);
    }
    let mut out: Vec<String> = Vec::new();
    let root = String::new();
    let ok = diff_into(&root, before, after, limit, &mut out);
    proof {
        assert(texts(Seq::<String>::empty()) =~= Seq::<Seq<char>>::empty());
        assert(Seq::<Seq<char>>::empty() + lines_of(first(diff_items(root@, *before, *after), limit as int)) =~= lines_of(
            first(diff_items(root@, *before, *after), limit as int),
        ));
    }
    if !ok {
        return None;
    }
    if out.len() == 0 {
        out.push(String::from_str("<config_changed_without_diff_entries>"));
        proof {
            assert(texts(out@) =~= seq!["<config_changed_without_diff_entries>"@]);
        }
    }
    Some(out)
}

/// The JSON value serde_json reads from `raw`, when `raw` is JSON.
pub uninterp spec fn parsed_json(raw: Seq<char>) -> Option<Json>;

#[verifier::external_type_specification]
#[verifier::external_body]
pub struct ExJsonValue(serde_json::Value);

/// The value serde_json reads, with each number's and each array's and
/// object's JSON text as serde_json writes it (nothing is stated of it).
#[verifier::external_body]
fn json_of_value(v: &serde_json::Value) -> Json {
    match v {
        serde_json::Value::Null => Json::Null,
        serde_json::Value::Bool(b) => Json::Bool(*b),
        serde_json::Value::Number(n) => Json::Number(n.to_string()),
        serde_json::Value::String(t) => Json::Str(t.clone()),
        serde_json::Value::Array(a) => Json::Array(a.iter().map(json_of_value).collect(), v.to_string()),
        serde_json::Value::Object(m) => Json::Object(m.iter().map(|(k, x)| (k.clone(), json_of_value(x))).collect(), v.to_string()),
    }
}

/// Reads JSON text with `serde_json::from_str` into a `serde_json::Value`
/// and takes it over as a [`Json`]; the result is named, not described.
#[verifier::external_body]
fn parse_json(raw: &str) -> (r: Option<Json>)
    ensures
        r == parsed_json(raw@),
{
    serde_json::from_str::<serde_json::Value>(raw).ok().map(|v| json_of_value(&v))
}

/// Summarizes the change between two configs given as JSON text, in at
/// most `limit` lines (see [`summarize_json_diff`]); text that is not JSON
/// gives one line saying which side failed to parse.
pub fn summarize_config_diff(old_raw: &str, new_raw: &str, limit: usize) -> (r: Option<Vec<String>>)
    ensures
        match parsed_json(old_raw@) {
            None => r matches Some(v) && texts(v@) == seq!["<old_config_parse_failed>"@],
            Some(a) => match parsed_json(new_raw@) {
                None => r matches Some(v) && texts(v@) == seq!["<new_config_parse_failed>"@],
                Some(b) => match summary_of(a, b, limit as nat) {
                    None => r is None,
                    Some(ls) => r matches Some(v) && texts(v@) == ls,
                },
            },
        },
{
    let a = match parse_json(old_raw) {
        Some(v) => v,
        None => {
            let v = vec![String::from_str("<old_config_parse_failed>")];
            proof {
                assert(texts(v@) =~= seq!["<old_config_parse_failed>"@]);
            }
            return Some(v);
        },
    };
    let b = match parse_json(new_raw) {
        Some(v) => v,
        None => {
            let v = vec![String::from_str("<new_config_parse_failed>")];
            proof {
                assert(texts(v@) =~= seq!["<new_config_parse_failed>"@]);
            }
            return Some(v);
        },
    };
    summarize_json_diff(&a, &b, limit)
}

} // verus!
