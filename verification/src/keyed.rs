//! Small association lists keyed by strings: a `Vec<(String, V)>` whose keys
//! are distinct, read as a partial map from the key's characters to `V`.
use vstd::prelude::*;

verus! {

/// The list with each key taken by its characters.
pub open spec fn kview<V>(s: Seq<(String, V)>) -> Seq<(Seq<char>, V)> {
    s.map_values(|p: (String, V)| (p.0@, p.1))
}

/// No key occurs twice.
pub open spec fn distinct<V>(s: Seq<(Seq<char>, V)>) -> bool {
    forall|i: int, j: int| 0 <= i < j < s.len() ==> #[trigger] s[i].0 != #[trigger] s[j].0
}

/// Some entry has key `k`.
pub open spec fn has_key<V>(s: Seq<(Seq<char>, V)>, k: Seq<char>) -> bool {
    exists|i: int| 0 <= i < s.len() && #[trigger] s[i].0 == k
}

/// The value stored under `k` (the last entry with that key).
pub open spec fn find<V>(s: Seq<(Seq<char>, V)>, k: Seq<char>) -> Option<V>
    decreases s.len(),
{
    if s.len() == 0 {
        None
    } else if s.last().0 == k {
        Some(s.last().1)
    } else {
        find(s.drop_last(), k)
    }
}

/// `s` with the value under `k` replaced by `v`, or `(k, v)` appended when
/// `k` is absent.
pub open spec fn upsert<V>(s: Seq<(Seq<char>, V)>, k: Seq<char>, v: V) -> Seq<(Seq<char>, V)> {
    if has_key(s, k) {
        let i = choose|i: int| 0 <= i < s.len() && #[trigger] s[i].0 == k;
        s.update(i, (k, v))
    } else {
        s.push((k, v))
    }
}

/// The entries of `s` whose value satisfies `keep`, in order.
pub open spec fn retain<V>(s: Seq<(Seq<char>, V)>, keep: spec_fn(V) -> bool) -> Seq<(Seq<char>, V)>
    decreases s.len(),
{
    if s.len() == 0 {
        s
    } else if keep(s.last().1) {
        retain(s.drop_last(), keep).push(s.last())
    } else {
        retain(s.drop_last(), keep)
    }
}

pub proof fn lemma_find_absent<V>(s: Seq<(Seq<char>, V)>, k: Seq<char>)
    requires
        !has_key(s, k),
    ensures
        find(s, k) is None,
    decreases s.len(),
{
    if s.len() > 0 {
        assert(s.last().0 != k) by {
            assert(s[s.len() - 1].0 == s.last().0);
        }
        assert(!has_key(s.drop_last(), k)) by {
            if has_key(s.drop_last(), k) {
                let i = choose|i: int| 0 <= i < s.drop_last().len() && #[trigger] s.drop_last()[i].0 == k;
                assert(s[i].0 == k);
            }
        }
        lemma_find_absent(s.drop_last(), k);
    }
}

pub proof fn lemma_find_at<V>(s: Seq<(Seq<char>, V)>, i: int)
    requires
        distinct(s),
        0 <= i < s.len(),
    ensures
        find(s, s[i].0) == Some(s[i].1),
    decreases s.len(),
{
    if i < s.len() - 1 {
        assert(s.last().0 != s[i].0) by {
            assert(s[s.len() - 1].0 == s.last().0);
        }
        assert(s.drop_last()[i] == s[i]);
        lemma_find_at(s.drop_last(), i);
    }
}

/// With distinct keys, `find` gives the value at the key's one index.
pub proof fn lemma_find_some<V>(s: Seq<(Seq<char>, V)>, k: Seq<char>)
    requires
        distinct(s),
    ensures
        find(s, k) is Some <==> has_key(s, k),
        has_key(s, k) ==> ({
            let i = choose|i: int| 0 <= i < s.len() && #[trigger] s[i].0 == k;
            &&& 0 <= i < s.len()
            &&& s[i].0 == k
            &&& find(s, k) == Some(s[i].1)
        }),
{
    if has_key(s, k) {
        let i = choose|i: int| 0 <= i < s.len() && #[trigger] s[i].0 == k;
        lemma_find_at(s, i);
    } else {
        lemma_find_absent(s, k);
    }
}

pub proof fn lemma_upsert<V>(s: Seq<(Seq<char>, V)>, k: Seq<char>, v: V)
    requires
        distinct(s),
    ensures
        distinct(upsert(s, k, v)),
        forall|k2: Seq<char>|
            #[trigger] find(upsert(s, k, v), k2) == if k2 == k {
                Some(v)
            } else {
                find(s, k2)
            },
        forall|k2: Seq<char>| #[trigger] has_key(upsert(s, k, v), k2) == (k2 == k || has_key(s, k2)),
{
    let u = upsert(s, k, v);
    if has_key(s, k) {
        let i = choose|i: int| 0 <= i < s.len() && #[trigger] s[i].0 == k;
        assert(u == s.update(i, (k, v)));
        assert forall|a: int, b: int| 0 <= a < b < u.len() implies #[trigger] u[a].0 != #[trigger] u[b].0 by {
            assert(u[a].0 == s[a].0);
            assert(u[b].0 == s[b].0);
        }
        assert forall|k2: Seq<char>| #[trigger] has_key(u, k2) == (k2 == k || has_key(s, k2)) by {
            if has_key(s, k2) {
                let j = choose|j: int| 0 <= j < s.len() && #[trigger] s[j].0 == k2;
                assert(u[j].0 == k2);
            }
            if has_key(u, k2) {
                let j = choose|j: int| 0 <= j < u.len() && #[trigger] u[j].0 == k2;
                assert(s[j].0 == k2);
            }
            assert(u[i].0 == k);
        }
        assert forall|k2: Seq<char>| #[trigger] find(u, k2) == if k2 == k {
            Some(v)
        } else {
            find(s, k2)
        } by {
            lemma_find_some(s, k2);
            lemma_find_some(u, k2);
            if k2 == k {
                lemma_find_at(u, i);
            } else if has_key(s, k2) {
                let j = choose|j: int| 0 <= j < s.len() && #[trigger] s[j].0 == k2;
                lemma_find_at(u, j);
                lemma_find_at(s, j);
            }
        }
    } else {
        assert(u == s.push((k, v)));
        assert forall|a: int, b: int| 0 <= a < b < u.len() implies #[trigger] u[a].0 != #[trigger] u[b].0 by {
            if b == s.len() {
                assert(u[a].0 == s[a].0);
            } else {
                assert(u[a] == s[a]);
                assert(u[b] == s[b]);
            }
        }
        assert forall|k2: Seq<char>| #[trigger] has_key(u, k2) == (k2 == k || has_key(s, k2)) by {
            if has_key(s, k2) {
                let j = choose|j: int| 0 <= j < s.len() && #[trigger] s[j].0 == k2;
                assert(u[j].0 == k2);
            }
            if has_key(u, k2) {
                let j = choose|j: int| 0 <= j < u.len() && #[trigger] u[j].0 == k2;
                if j < s.len() {
                    assert(s[j].0 == k2);
                }
            }
            assert(u[s.len() as int].0 == k);
        }
        assert forall|k2: Seq<char>| #[trigger] find(u, k2) == if k2 == k {
            Some(v)
        } else {
            find(s, k2)
        } by {
            assert(u.drop_last() =~= s);
        }
    }
}

/// Every key kept by `retain` comes from `s`.
pub proof fn lemma_retain_from<V>(s: Seq<(Seq<char>, V)>, keep: spec_fn(V) -> bool)
    ensures
        retain(s, keep).len() <= s.len(),
        forall|k: Seq<char>| #[trigger] has_key(retain(s, keep), k) ==> has_key(s, k),
    decreases s.len(),
{
    if s.len() > 0 {
        let d = s.drop_last();
        lemma_retain_from(d, keep);
        assert forall|k: Seq<char>| has_key(retain(s, keep), k) implies has_key(s, k) by {
            let r = retain(s, keep);
            let j = choose|j: int| 0 <= j < r.len() && #[trigger] r[j].0 == k;
            if j < retain(d, keep).len() {
                assert(r[j] == retain(d, keep)[j]);
                assert(has_key(retain(d, keep), k));
                let i = choose|i: int| 0 <= i < d.len() && #[trigger] d[i].0 == k;
                assert(s[i] == d[i]);
            } else {
                assert(r[j] == s[s.len() - 1]);
            }
        }
    }
}

/// `retain` keeps distinct keys, and an entry survives exactly when its value
/// satisfies `keep`.
pub proof fn lemma_retain<V>(s: Seq<(Seq<char>, V)>, keep: spec_fn(V) -> bool)
    requires
        distinct(s),
    ensures
        distinct(retain(s, keep)),
        forall|k: Seq<char>|
            #[trigger] find(retain(s, keep), k) == match find(s, k) {
                Some(v) => if keep(v) {
                    Some(v)
                } else {
                    None::<V>
                },
                None => None::<V>,
            },
    decreases s.len(),
{
    if s.len() > 0 {
        let d = s.drop_last();
        assert(distinct(d)) by {
            assert forall|a: int, b: int| 0 <= a < b < d.len() implies #[trigger] d[a].0 != #[trigger] d[b].0 by {
                assert(d[a] == s[a]);
                assert(d[b] == s[b]);
            }
        }
        lemma_retain(d, keep);
        lemma_retain_from(d, keep);
        let last = s.last();
        assert(!has_key(d, last.0)) by {
            if has_key(d, last.0) {
                let i = choose|i: int| 0 <= i < d.len() && #[trigger] d[i].0 == last.0;
                assert(s[i].0 == s[s.len() - 1].0);
            }
        }
        let rd = retain(d, keep);
        assert(!has_key(rd, last.0));
        lemma_find_absent(rd, last.0);
        lemma_find_absent(d, last.0);
        if keep(last.1) {
            let r = retain(s, keep);
            assert(r == rd.push(last));
            assert forall|a: int, b: int| 0 <= a < b < r.len() implies #[trigger] r[a].0 != #[trigger] r[b].0 by {
                if b == rd.len() {
                    assert(r[a] == rd[a]);
                    assert(rd[a].0 != last.0) by {
                        if rd[a].0 == last.0 {
                            assert(has_key(rd, last.0));
                        }
                    }
                } else {
                    assert(r[a] == rd[a]);
                    assert(r[b] == rd[b]);
                }
            }
            assert forall|k: Seq<char>|
                #[trigger] find(r, k) == match find(s, k) {
                    Some(v) => if keep(v) {
                        Some(v)
                    } else {
                        None::<V>
                    },
                    None => None::<V>,
                } by {
                assert(r.drop_last() =~= rd);
                assert(find(rd, k) == match find(d, k) {
                    Some(v) => if keep(v) {
                        Some(v)
                    } else {
                        None::<V>
                    },
                    None => None::<V>,
                });
            }
        } else {
            assert forall|k: Seq<char>|
                #[trigger] find(retain(s, keep), k) == match find(s, k) {
                    Some(v) => if keep(v) {
                        Some(v)
                    } else {
                        None::<V>
                    },
                    None => None::<V>,
                } by {
                assert(find(rd, k) == match find(d, k) {
                    Some(v) => if keep(v) {
                        Some(v)
                    } else {
                        None::<V>
                    },
                    None => None::<V>,
                });
            }
        }
    }
}

/// The index of the entry with key `k`, if any.
pub fn position<V>(v: &Vec<(String, V)>, k: &str) -> (r: Option<usize>)
    ensures
        match r {
            Some(i) => i < v.len() && v@[i as int].0@ == k@,
            None => !has_key(kview(v@), k@),
        },
{
    let mut i: usize = 0;
    while i < v.len()
        invariant
            i <= v.len(),
            forall|j: int| 0 <= j < i ==> v@[j].0@ != k@,
        decreases v.len() - i,
    {
        if crate::text::str_eq(v[i].0.as_str(), k) {
            return Some(i);
        }
        i = i + 1;
    }
    proof {
        let kv = kview(v@);
        if has_key(kv, k@) {
            let j = choose|j: int| 0 <= j < kv.len() && #[trigger] kv[j].0 == k@;
            assert(kv[j].0 == v@[j].0@);
        }
    }
    None
}

/// Sets the value under `k` to `val`, appending the entry when `k` is absent.
pub fn upsert_entry<V>(v: &mut Vec<(String, V)>, k: &str, val: V)
    requires
        distinct(kview(old(v)@)),
    ensures
        kview(final(v)@) == upsert(kview(old(v)@), k@, val),
        distinct(kview(final(v)@)),
{
    let ghost s = kview(v@);
    proof {
        lemma_upsert(s, k@, val);
    }
    match position(v, k) {
        Some(i) => {
            let key = v[i].0.clone();
            v.set(i, (key, val));
            proof {
                assert(s[i as int].0 == k@);
                let c = choose|c: int| 0 <= c < s.len() && #[trigger] s[c].0 == k@;
                if c != i {
                    assert(s[c].0 != s[i as int].0);
                }
                assert(kview(v@) =~= s.update(i as int, (k@, val)));
            }
        },
        None => {
            v.push((k.to_owned(), val));
            proof {
                assert(kview(v@) =~= s.push((k@, val)));
            }
        },
    }
}

/// The value stored under `k`.
pub fn lookup<V: Copy>(v: &Vec<(String, V)>, k: &str) -> (r: Option<V>)
    requires
        distinct(kview(v@)),
    ensures
        r == find(kview(v@), k@),
{
    proof {
        lemma_find_some(kview(v@), k@);
    }
    match position(v, k) {
        Some(i) => {
            proof {
                let s = kview(v@);
                assert(s[i as int].0 == k@);
                lemma_find_at(s, i as int);
            }
            Some(v[i].1)
        },
        None => None,
    }
}

} // verus!
