use vstd::prelude::*;

verus! {

/// ASCII whitespace: space, tab, line feed, form feed, carriage return.
pub open spec fn is_ws(b: u8) -> bool {
    b == 0x20u8 || b == 0x09u8 || b == 0x0Au8 || b == 0x0Cu8 || b == 0x0Du8
}

/// ASCII lower case of one byte; other bytes unchanged.
pub open spec fn lower(b: u8) -> u8 {
    if 0x41u8 <= b && b <= 0x5Au8 { (b + 32) as u8 } else { b }
}

/// Equal up to ASCII case.
pub open spec fn ci_eq(a: Seq<u8>, b: Seq<u8>) -> bool {
    a.len() == b.len() && forall|i: int| 0 <= i < a.len() ==> #[trigger] lower(a[i]) == lower(b[i])
}

/// First index at or after `i` where `s` holds `b`, or `s.len()` when there is none.
pub open spec fn pos_from(s: Seq<u8>, b: u8, i: int) -> int
    decreases s.len() - i,
{
    if i >= s.len() {
        s.len() as int
    } else if s[i] == b {
        i
    } else {
        pos_from(s, b, i + 1)
    }
}

/// `s` without its leading whitespace and trailing whitespace.
pub open spec fn trim_ws(s: Seq<u8>) -> Seq<u8>
    decreases s.len(),
{
    if s.len() > 0 && is_ws(s[0]) {
        trim_ws(s.drop_first())
    } else {
        trim_end_ws(s)
    }
}

/// `s` without its trailing whitespace.
pub open spec fn trim_end_ws(s: Seq<u8>) -> Seq<u8>
    decreases s.len(),
{
    if s.len() > 0 && is_ws(s.last()) {
        trim_end_ws(s.drop_last())
    } else {
        s
    }
}

pub fn is_ascii_ws(b: u8) -> (r: bool)
    ensures
        r == is_ws(b),
{
    b == 0x20u8 || b == 0x09u8 || b == 0x0Au8 || b == 0x0Cu8 || b == 0x0Du8
}

pub fn to_lower(b: u8) -> (r: u8)
    ensures
        r == lower(b),
{
    if 0x41u8 <= b && b <= 0x5Au8 { b + 32 } else { b }
}

/// Whether `a` and `b` are equal up to ASCII case.
pub fn eq_ignore_ascii_case(a: &[u8], b: &[u8]) -> (r: bool)
    ensures
        r == ci_eq(a@, b@),
{
    if a.len() != b.len() {
        return false;
    }
    let mut i: usize = 0;
    while i < a.len()
        invariant
            a@.len() == b@.len(),
            i <= a@.len(),
            forall|j: int| 0 <= j < i ==> #[trigger] lower(a@[j]) == lower(b@[j]),
        decreases a@.len() - i,
    {
        if to_lower(a[i]) != to_lower(b[i]) {
            return false;
        }
        i = i + 1;
    }
    true
}

/// Whether `a` and `b` hold the same bytes.
pub fn bytes_eq(a: &[u8], b: &[u8]) -> (r: bool)
    ensures
        r == (a@ == b@),
{
    if a.len() != b.len() {
        return false;
    }
    let mut i: usize = 0;
    while i < a.len()
        invariant
            a@.len() == b@.len(),
            i <= a@.len(),
            forall|j: int| 0 <= j < i ==> a@[j] == b@[j],
        decreases a@.len() - i,
    {
        if a[i] != b[i] {
            return false;
        }
        i = i + 1;
    }
    assert(a@ =~= b@);
    true
}

/// Facts of `pos_from`: it lies in `[i, len]`, holds `b` when below `len`,
/// and no byte before it (from `i` on) is `b`.
pub proof fn lemma_pos_from(s: Seq<u8>, b: u8, i: int)
    requires
        0 <= i <= s.len(),
    ensures
        i <= pos_from(s, b, i) <= s.len(),
        pos_from(s, b, i) < s.len() ==> s[pos_from(s, b, i)] == b,
        forall|j: int| i <= j < pos_from(s, b, i) ==> s[j] != b,
    decreases s.len() - i,
{
    if i < s.len() && s[i] != b {
        lemma_pos_from(s, b, i + 1);
    }
}

/// First index at or after `from` where `s` holds `b`, or `s.len()`.
pub fn find_byte(s: &[u8], b: u8, from: usize) -> (r: usize)
    requires
        from <= s@.len(),
    ensures
        r == pos_from(s@, b, from as int),
{
    let mut k: usize = from;
    while k < s.len() && s[k] != b
        invariant
            from <= k <= s@.len(),
            pos_from(s@, b, from as int) == pos_from(s@, b, k as int),
        decreases s@.len() - k,
    {
        k = k + 1;
    }
    k
}

/// `s` without leading and trailing ASCII whitespace.
pub fn trim_ascii_ws(s: &[u8]) -> (r: &[u8])
    ensures
        r@ == trim_ws(s@),
{
    let mut a: usize = 0;
    proof {
        assert(s@.subrange(0, s@.len() as int) =~= s@);
    }
    while a < s.len() && is_ascii_ws(s[a])
        invariant
            a <= s@.len(),
            trim_ws(s@) == trim_ws(s@.subrange(a as int, s@.len() as int)),
        decreases s@.len() - a,
    {
        proof {
            assert(s@.subrange(a as int, s@.len() as int).drop_first() =~= s@.subrange(a as int + 1, s@.len() as int));
        }
        a = a + 1;
    }
    let mut b: usize = s.len();
    proof {
        assert(s@.subrange(a as int, b as int) =~= s@.subrange(a as int, s@.len() as int));
    }
    while b > a && is_ascii_ws(s[b - 1])
        invariant
            a <= b <= s@.len(),
            trim_ws(s@) == trim_end_ws(s@.subrange(a as int, b as int)),
        decreases b,
    {
        proof {
            assert(s@.subrange(a as int, b as int).drop_last() =~= s@.subrange(a as int, b as int - 1));
        }
        b = b - 1;
    }
    vstd::slice::slice_subrange(s, a, b)
}

} // verus!
