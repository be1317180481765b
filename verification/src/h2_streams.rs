//! Stream tables of the HTTP/2 connections: a vector of streams indexed by
//! stream id through a `U32Map` (stream id -> vector position).
use vstd::prelude::*;

use crate::h2_flow::{ConnKey, Deadline, Flow};
use crate::u32map::{storable_key, U32Map, MAX_MAP_CAP};

verus! {

/// Something identified by a stream id.
pub trait Keyed {
    spec fn key_of(&self) -> u32;

    fn key(&self) -> (r: u32)
        ensures
            r == self.key_of(),
    ;
}

/// Vector of items indexed by their stream id. Items whose id cannot be
/// indexed (0 or `u32::MAX`) may sit in the vector without an index entry.
pub struct SidIndex<T> {
    v: Vec<T>,
    m: U32Map,
}

impl<T: Keyed> SidIndex<T> {
    pub closed spec fn wf(&self) -> bool {
        &&& self.m.wf()
        &&& self.v@.len() < 0x1_0000_0000
        &&& self.m.live_count() <= self.v@.len()
        &&& forall|i: int|
            0 <= i < self.v@.len() && storable_key(#[trigger] self.v@[i].key_of())
                ==> self.m@.contains_key(self.v@[i].key_of()) && self.m@[self.v@[i].key_of()] == i
        &&& forall|k: u32|
            #[trigger] self.m@.contains_key(k) ==> self.m@[k] < self.v@.len() && self.v@[self.m@[k] as int].key_of() == k
    }

    /// All items, indexed or not, in vector order.
    pub closed spec fn items(&self) -> Seq<T> {
        self.v@
    }

    /// The indexed items by stream id.
    pub closed spec fn by_sid(&self) -> Map<u32, T> {
        Map::new(|k: u32| self.m@.contains_key(k), |k: u32| self.v@[self.m@[k] as int])
    }

    pub closed spec fn index_capacity(&self) -> nat {
        self.m.capacity()
    }

    /// The position of the item indexed under `k`.
    pub closed spec fn pos_of(&self, k: u32) -> int {
        self.m@[k] as int
    }

    /// Indexed items sit at their positions.
    pub proof fn lemma_positions(&self)
        requires
            self.wf(),
        ensures
            forall|k: u32| #[trigger] self.by_sid().contains_key(k) ==> 0 <= self.pos_of(k) < self.items().len()
                && self.items()[self.pos_of(k)] == self.by_sid()[k] && self.by_sid()[k].key_of() == k,
    {
    }

    /// The item at position `i`.
    pub fn at(&self, i: usize) -> (r: &T)
        requires
            i < self.items().len(),
        ensures
            *r == self.items()[i as int],
    {
        &self.v[i]
    }

    /// Replaces the item at position `i` by one with the same id.
    pub fn replace_at(&mut self, i: usize, x: T)
        requires
            old(self).wf(),
            i < old(self).items().len(),
            x.key_of() == old(self).items()[i as int].key_of(),
        ensures
            final(self).wf(),
            final(self).items() == old(self).items().update(i as int, x),
            final(self).index_capacity() == old(self).index_capacity(),
            storable_key(x.key_of()) ==> final(self).by_sid() == old(self).by_sid().insert(x.key_of(), x),
            !storable_key(x.key_of()) ==> final(self).by_sid() == old(self).by_sid(),
            final(self).by_sid().dom() == old(self).by_sid().dom(),
            forall|k: u32| #[trigger] final(self).pos_of(k) == old(self).pos_of(k),
    {
        proof {
            self.m.lemma_keys_storable();
        }
        self.v.set(i, x);
        proof {
            let k = x.key_of();
            assert forall|j: int|
                0 <= j < self.v@.len() && storable_key(#[trigger] self.v@[j].key_of())
                    implies self.m@.contains_key(self.v@[j].key_of()) && self.m@[self.v@[j].key_of()] == j by {
                assert(self.v@[j].key_of() == old(self).v@[j].key_of());
            }
            assert forall|kk: u32| #[trigger] self.m@.contains_key(kk) implies self.m@[kk] < self.v@.len()
                && self.v@[self.m@[kk] as int].key_of() == kk by {
                assert(old(self).v@[self.m@[kk] as int].key_of() == kk);
            }
            if storable_key(k) {
                assert(self.m@[k] == i);
                assert(self.by_sid() =~= old(self).by_sid().insert(k, x));
            } else {
                assert(!self.m@.contains_key(k));
                assert forall|kk: u32| #[trigger] self.m@.contains_key(kk) implies self.m@[kk] != i by {
                    assert(self.v@[self.m@[kk] as int].key_of() == kk);
                }
                assert(self.by_sid() =~= old(self).by_sid());
            }
        }
    }

    /// Each indexed item carries the id it is indexed under.
    pub proof fn lemma_keys_match(&self)
        requires
            self.wf(),
        ensures
            forall|k: u32| #[trigger] self.by_sid().contains_key(k) ==> self.by_sid()[k].key_of() == k,
    {
    }

    pub fn new(slots: usize, seed: u64, reserve: usize) -> (r: SidIndex<T>)
        requires
            slots <= MAX_MAP_CAP,
        ensures
            r.wf(),
            r.items().len() == 0,
            r.by_sid() == Map::<u32, T>::empty(),
            r.index_capacity() >= slots,
            r.index_capacity() < 2 * slots || r.index_capacity() == 16,
            forall|e: nat|
                slots == vstd::arithmetic::power2::pow2(e) && slots >= 16 ==> r.index_capacity()
                    == slots,
    {
        let r = SidIndex { v: Vec::with_capacity(reserve), m: U32Map::with_capacity_pow2(slots, seed) };
        assert(r.by_sid() =~= Map::<u32, T>::empty());
        r
    }

    pub fn len(&self) -> (r: usize)
        ensures
            r == self.items().len(),
    {
        self.v.len()
    }

    pub fn slot_count(&self) -> (r: usize)
        requires
            self.wf(),
        ensures
            r == self.index_capacity(),
    {
        self.m.slot_count()
    }

    pub fn get(&self, sid: u32) -> (r: Option<&T>)
        requires
            self.wf(),
        ensures
            r == (if self.by_sid().contains_key(sid) {
                Some(&self.by_sid()[sid])
            } else {
                None
            }),
    {
        match self.m.get(sid) {
            Some(i) => Some(&self.v[i as usize]),
            None => None,
        }
    }

    pub fn contains(&self, sid: u32) -> (r: bool)
        requires
            self.wf(),
        ensures
            r == self.by_sid().contains_key(sid),
    {
        self.m.get(sid).is_some()
    }

    pub fn get_mut(&mut self, sid: u32) -> (r: Option<&mut T>)
        requires
            old(self).wf(),
        ensures
            match r {
                Some(x) => {
                    &&& old(self).by_sid().contains_key(sid)
                    &&& *x == old(self).by_sid()[sid]
                    &&& (*final(x)).key_of() == sid ==> {
                        &&& final(self).wf()
                        &&& final(self).by_sid() == old(self).by_sid().insert(sid, *final(x))
                    }
                    &&& final(self).items().len() == old(self).items().len()
                    &&& final(self).index_capacity() == old(self).index_capacity()
                },
                None => !old(self).by_sid().contains_key(sid) && *final(self) == *old(self),
            },
    {
        match self.m.get(sid) {
            Some(i) => {
                let r = &mut self.v[i as usize];
                Some(r)
            },
            None => None,
        }
    }

    /// The item at position `i` (in table order), to change in place;
    /// keeping its id keeps the table well formed.
    pub fn at_mut(&mut self, i: usize) -> (r: &mut T)
        requires
            old(self).wf(),
            i < old(self).items().len(),
        ensures
            *r == old(self).items()[i as int],
            (*final(r)).key_of() == r.key_of() ==> {
                &&& final(self).wf()
                &&& final(self).items() == old(self).items().update(i as int, *final(r))
                &&& final(self).index_capacity() == old(self).index_capacity()
                &&& storable_key(r.key_of()) ==> final(self).by_sid() == old(self).by_sid().insert(r.key_of(), *final(r))
                &&& !storable_key(r.key_of()) ==> final(self).by_sid() == old(self).by_sid()
            },
    {
        proof {
            self.m.lemma_keys_storable();
            if storable_key(self.v@[i as int].key_of()) {
                assert(self.m@.contains_key(self.v@[i as int].key_of()) && self.m@[self.v@[i as int].key_of()] == i);
            }
            assert forall|k: u32| #[trigger] self.m@.contains_key(k) && self.m@[k] == i implies k == self.v@[i as int].key_of() by {
            }
        }
        &mut self.v[i]
    }

    /// Appends an item and indexes it. Nothing changes when the id is already
    /// indexed; an id that cannot be indexed is appended without an index
    /// entry and reported as not inserted.
    pub fn insert(&mut self, s: T) -> (r: bool)
        requires
            old(self).wf(),
            old(self).items().len() + 1 < 0x1_0000_0000,
        ensures
            final(self).wf(),
            old(self).by_sid().contains_key(s.key_of()) ==> !r && *final(self) == *old(self),
            !old(self).by_sid().contains_key(s.key_of()) ==> {
                &&& r ==> final(self).items() == old(self).items().push(s)
                &&& r ==> final(self).by_sid() == old(self).by_sid().insert(s.key_of(), s)
                &&& !r ==> final(self).by_sid() == old(self).by_sid()
                &&& !storable_key(s.key_of()) ==> !r && final(self).items() == old(self).items().push(s)
                &&& storable_key(s.key_of()) && old(self).index_capacity() < MAX_MAP_CAP ==> r
                &&& storable_key(s.key_of()) && old(self).items().len() + 1 < MAX_MAP_CAP ==> r
                &&& storable_key(s.key_of()) && !r ==> final(self).items() == old(self).items()
            },
            final(self).index_capacity() <= 2 * old(self).index_capacity(),
    {
        let sid = s.key();
        if self.m.get(sid).is_some() {
            return false;
        }
        let idx = self.v.len() as u32;
        let ghost old_v = self.v@;
        let ghost old_m = self.m@;
        self.v.push(s);
        let ok = self.m.insert(sid, idx);
        if !ok && sid != 0 && sid != 0xffff_ffff {
            let _ = self.v.pop();
            proof {
                assert(self.v@ =~= old_v);
                assert(self.by_sid() =~= old(self).by_sid());
            }
            return false;
        }
        proof {
            self.m.lemma_keys_storable();
            assert forall|i: int|
                0 <= i < self.v@.len() && storable_key(#[trigger] self.v@[i].key_of())
                    implies self.m@.contains_key(self.v@[i].key_of()) && self.m@[self.v@[i].key_of()] == i by {
                if i < old_v.len() {
                    assert(old_v[i] == self.v@[i]);
                    assert(old_m.contains_key(old_v[i].key_of()));
                }
            }
            assert forall|k: u32| #[trigger] self.m@.contains_key(k) implies self.m@[k] < self.v@.len()
                && self.v@[self.m@[k] as int].key_of() == k by {
                if k != sid {
                    assert(old_m.contains_key(k));
                }
            }
            assert(self.by_sid() =~= if ok {
                old(self).by_sid().insert(sid, s)
            } else {
                old(self).by_sid()
            });
        }
        ok
    }

    /// Removes the item with an indexed id, moving the last item into its
    /// place.
    pub fn remove(&mut self, sid: u32) -> (r: Option<T>)
        requires
            old(self).wf(),
        ensures
            final(self).wf(),
            r == (if old(self).by_sid().contains_key(sid) {
                Some(old(self).by_sid()[sid])
            } else {
                None
            }),
            final(self).by_sid() == old(self).by_sid().remove(sid),
            r is Some ==> final(self).items().len() + 1 == old(self).items().len(),
            r is None ==> *final(self) == *old(self),
            final(self).index_capacity() == old(self).index_capacity(),
    {
        let idx = match self.m.remove(sid) {
            Some(i) => i as usize,
            None => {
                return None;
            },
        };
        let ghost old_v = self.v@;
        let ghost old_m = old(self).m@;
        proof {
            old(self).m.lemma_keys_storable();
        }
        let last = self.v.len() - 1;
        let removed = self.v.swap_remove(idx);
        if idx != last {
            let moved_sid = self.v[idx].key();
            self.m.update_value(moved_sid, idx as u32);
            proof {
                assert forall|k: u32| #[trigger] self.m@.contains_key(k) implies self.m@[k]
                    < self.v@.len() && self.v@[self.m@[k] as int].key_of() == k by {
                    if k == moved_sid {
                    } else {
                        assert(old_m.contains_key(k));
                        assert(old_m[k] != idx);
                        if old_m[k] == last {
                            assert(old_v[last as int].key_of() == k);
                        }
                    }
                }
                assert forall|i: int|
                    0 <= i < self.v@.len() && storable_key(#[trigger] self.v@[i].key_of())
                        implies self.m@.contains_key(self.v@[i].key_of()) && self.m@[self.v@[i].key_of()] == i by {
                    if i == idx {
                        assert(old_v[last as int].key_of() == moved_sid);
                    } else {
                        assert(old_v[i].key_of() == self.v@[i].key_of());
                        if self.v@[i].key_of() == moved_sid {
                            assert(old_m[moved_sid] == last);
                            assert(old_m[moved_sid] == i);
                        }
                        if self.v@[i].key_of() == sid {
                            assert(old_m[sid] == idx);
                        }
                    }
                }
                assert(self.by_sid() =~= old(self).by_sid().remove(sid)) by {
                    assert forall|k: u32| self.by_sid().contains_key(k) implies self.by_sid()[k] == old(self).by_sid()[k] by {
                        if k == moved_sid {
                            assert(old_m[k] == last);
                        } else {
                            assert(old_m[k] != last);
                        }
                    }
                }
            }
        } else {
            proof {
                assert forall|k: u32| #[trigger] self.m@.contains_key(k) implies self.m@[k]
                    < self.v@.len() && self.v@[self.m@[k] as int].key_of() == k by {
                    assert(old_m.contains_key(k));
                    assert(old_m[k] != idx);
                }
                assert forall|i: int|
                    0 <= i < self.v@.len() && storable_key(#[trigger] self.v@[i].key_of())
                        implies self.m@.contains_key(self.v@[i].key_of()) && self.m@[self.v@[i].key_of()] == i by {
                    assert(old_v[i].key_of() == self.v@[i].key_of());
                    if self.v@[i].key_of() == sid {
                        assert(old_m[sid] == idx);
                    }
                }
                assert(self.by_sid() =~= old(self).by_sid().remove(sid));
            }
        }
        Some(removed)
    }
}

// ---------------------------------------------------------------- downstream

#[derive(Clone, Copy, Debug, PartialEq, Eq)]
pub enum StreamState {
    Idle,
    Open,
    HalfClosedLocal,
    HalfClosedRemote,
    Closed,
}

/// The upstream stream a downstream stream is bridged to.
#[derive(Clone, Copy, Debug)]
pub struct UpLink {
    pub up_conn: ConnKey,
    pub up_sid: u32,
}

/// A downstream stream.
#[derive(Clone, Copy, Debug)]
pub struct Stream {
    pub sid: u32,
    pub state: StreamState,
    /// send_win: what the peer lets us send; recv_win: what we let the peer
    /// send (grown only after credit).
    pub flow: Flow,
    pub deadline: Deadline,
    pub empty_data_strikes: u8,
    pub uplink: Option<UpLink>,
}

impl Stream {
    pub fn new(sid: u32, init_send: u32, init_recv: u32) -> (r: Stream)
        ensures
            r.sid == sid,
            r.state == StreamState::Idle,
            r.flow.send_win == init_send,
            r.flow.recv_win == init_recv,
            r.deadline.instant() is None,
            r.empty_data_strikes == 0,
            r.uplink is None,
    {
        Stream {
            sid,
            state: StreamState::Idle,
            flow: Flow::new(init_send, init_recv),
            deadline: Deadline::none(),
            empty_data_strikes: 0,
            uplink: None,
        }
    }
}

impl Keyed for Stream {
    open spec fn key_of(&self) -> u32 {
        self.sid
    }

    fn key(&self) -> (r: u32) {
        self.sid
    }
}

/// `b` is `a` but for its send window.
pub open spec fn same_but_send(a: Stream, b: Stream) -> bool {
    &&& b.sid == a.sid && b.state == a.state && b.deadline == a.deadline
    &&& b.empty_data_strikes == a.empty_data_strikes && b.uplink == a.uplink
    &&& b.flow.recv_win == a.flow.recv_win
}

/// The streams of a downstream connection, bounded by the concurrent-stream
/// limit.
pub struct StreamSet {
    inner: SidIndex<Stream>,
    cap: usize,
}

/// What `StreamSet::insert` of `s` into `a` answers (`r`) and leaves (`b`):
/// nothing changes when the set is full or holds the id; else the stream is
/// added, indexed under its id when the id can be stored.
pub open spec fn set_insert_post(a: StreamSet, s: Stream, r: bool, b: StreamSet) -> bool {
    &&& b.wf()
    &&& b.limit() == a.limit()
    &&& a.items().len() >= a.limit() ==> !r && b == a
    &&& a.by_sid().contains_key(s.sid) ==> !r && b == a
    &&& a.items().len() < a.limit() && !a.by_sid().contains_key(s.sid) ==> {
        &&& r <==> storable_key(s.sid)
        &&& r ==> b.items() == a.items().push(s)
        &&& r ==> b.by_sid() == a.by_sid().insert(s.sid, s)
        &&& !r ==> b.by_sid() == a.by_sid()
        &&& !r ==> b.items() == a.items().push(s)
    }
}

/// What `StreamSet::remove` of `sid` from `a` answers (`r`) and leaves
/// (`b`): the stream under `sid`, if any, leaves.
pub open spec fn set_remove_post(a: StreamSet, sid: u32, r: Option<Stream>, b: StreamSet) -> bool {
    &&& b.wf()
    &&& b.limit() == a.limit()
    &&& r == (if a.by_sid().contains_key(sid) {
        Some(a.by_sid()[sid])
    } else {
        None
    })
    &&& b.by_sid() == a.by_sid().remove(sid)
    &&& r is Some ==> b.items().len() + 1 == a.items().len()
    &&& r is None ==> b == a
    &&& b.index_capacity() == a.index_capacity()
}

/// One change to a stream set.
pub enum SetOp {
    Insert(Stream),
    Remove(u32),
}

/// `b` is what the change `op` may leave of `a`, by the contract of the
/// method that makes it.
pub open spec fn set_op_post(a: StreamSet, op: SetOp, b: StreamSet) -> bool {
    match op {
        SetOp::Insert(s) => exists|r: bool| set_insert_post(a, s, r, b),
        SetOp::Remove(k) => exists|r: Option<Stream>| set_remove_post(a, k, r, b),
    }
}

/// The id a change names.
pub open spec fn set_op_sid(op: SetOp) -> u32 {
    match op {
        SetOp::Insert(s) => s.sid,
        SetOp::Remove(k) => k,
    }
}

/// The streams a set of limit `cap` holds after `ops` from empty: an insert
/// adds its stream when there is room and the id is new, a remove drops the
/// id.
pub open spec fn set_model(ops: Seq<SetOp>, cap: nat) -> Map<u32, Stream>
    decreases ops.len(),
{
    if ops.len() == 0 {
        Map::empty()
    } else {
        let m = set_model(ops.drop_last(), cap);
        match ops.last() {
            SetOp::Insert(s) => if m.dom().len() < cap && !m.contains_key(s.sid) {
                m.insert(s.sid, s)
            } else {
                m
            },
            SetOp::Remove(k) => m.remove(k),
        }
    }
}

/// Largest concurrent-stream limit a set is built for.
pub const MAX_STREAM_SET_CAP: usize = 0x1000_0000;

impl StreamSet {
    pub closed spec fn wf(&self) -> bool {
        &&& self.inner.wf()
        &&& 1 <= self.cap <= MAX_STREAM_SET_CAP
        &&& self.inner.items().len() <= self.cap
    }

    /// All streams, indexed or not.
    pub closed spec fn items(&self) -> Seq<Stream> {
        self.inner.items()
    }

    /// The indexed streams by id.
    pub closed spec fn by_sid(&self) -> Map<u32, Stream> {
        self.inner.by_sid()
    }

    pub closed spec fn limit(&self) -> nat {
        self.cap as nat
    }

    pub closed spec fn index_capacity(&self) -> nat {
        self.inner.index_capacity()
    }

    /// Adds `d` to the send window of every stream, in table order, and
    /// stops at the first window that would pass 2^31 - 1 (or leave the
    /// range of `i64`), reporting the overflow; streams after it are left
    /// as they were.
    pub fn shift_send_windows(&mut self, d: i64) -> (overflow: bool)
        requires
            old(self).wf(),
        ensures
            final(self).wf(),
            final(self).limit() == old(self).limit(),
            final(self).items().len() == old(self).items().len(),
            final(self).by_sid().dom() == old(self).by_sid().dom(),
            forall|k: u32| #[trigger] final(self).by_sid().contains_key(k) ==> same_but_send(
                old(self).by_sid()[k],
                final(self).by_sid()[k],
            ),
            !overflow ==> forall|k: u32| #[trigger] final(self).by_sid().contains_key(k)
                ==> final(self).by_sid()[k].flow.send_win == old(self).by_sid()[k].flow.send_win + d,
            overflow <==> exists|i: int| 0 <= i < old(self).items().len() && !window_fits(
                #[trigger] old(self).items()[i].flow.send_win + d,
            ),
    {
        let n = self.inner.len();
        let mut i: usize = 0;
        let ghost m0 = self.inner.by_sid();
        let ghost v0 = self.inner.items();
        proof {
            self.inner.lemma_positions();
        }
        while i < n
            invariant
                self.wf(),
                self.cap == old(self).cap,
                n == self.inner.items().len(),
                n == v0.len(),
                i <= n,
                m0 == old(self).by_sid(),
                v0 == old(self).items(),
                self.inner.by_sid().dom() == m0.dom(),
                forall|k: u32| #[trigger] self.inner.pos_of(k) == old(self).inner.pos_of(k),
                forall|k: u32| #[trigger] m0.contains_key(k) ==> 0 <= old(self).inner.pos_of(k) < n
                    && v0[old(self).inner.pos_of(k)] == m0[k],
                forall|j: int| 0 <= j < i ==> window_fits((#[trigger] v0[j]).flow.send_win + d),
                forall|j: int| 0 <= j < n ==> same_but_send(v0[j], #[trigger] self.inner.items()[j]),
                forall|j: int| 0 <= j < i ==> (#[trigger] self.inner.items()[j]).flow.send_win == v0[j].flow.send_win + d,
                forall|j: int| i <= j < n ==> (#[trigger] self.inner.items()[j]).flow.send_win == v0[j].flow.send_win,
            decreases n - i,
        {
            proof {
                self.inner.lemma_positions();
            }
            let cur = *self.inner.at(i);
            let next = match cur.flow.send_win.checked_add(d) {
                Some(x) => x,
                None => {
                    proof {
                        assert(!window_fits(v0[i as int].flow.send_win + d));
                        assert forall|k: u32| #[trigger] self.by_sid().contains_key(k) implies same_but_send(
                            m0[k],
                            self.by_sid()[k],
                        ) by {
                            assert(self.inner.items()[old(self).inner.pos_of(k)] == self.inner.by_sid()[k]);
                        }
                    }
                    return true;
                },
            };
            let mut upd = cur;
            upd.flow.send_win = next;
            self.inner.replace_at(i, upd);
            if next > 0x7fff_ffff {
                proof {
                    assert(!window_fits(v0[i as int].flow.send_win + d));
                    self.inner.lemma_positions();
                    assert forall|k: u32| #[trigger] self.by_sid().contains_key(k) implies same_but_send(
                        m0[k],
                        self.by_sid()[k],
                    ) by {
                        let p = old(self).inner.pos_of(k);
                        assert(self.inner.items()[p] == self.inner.by_sid()[k]);
                        if p != i {
                            assert(same_but_send(v0[p], self.inner.items()[p]));
                        }
                    }
                }
                return true;
            }
            i = i + 1;
        }
        proof {
            self.inner.lemma_positions();
            assert forall|k: u32| #[trigger] self.by_sid().contains_key(k) implies same_but_send(
                m0[k],
                self.by_sid()[k],
            ) && self.by_sid()[k].flow.send_win == m0[k].flow.send_win + d by {
                let p = old(self).inner.pos_of(k);
                assert(self.inner.items()[p] == self.inner.by_sid()[k]);
            }
        }
        false
    }

    /// A well-formed set holds no more streams than its limit.
    pub proof fn lemma_within_limit(&self)
        requires
            self.wf(),
        ensures
            self.items().len() <= self.limit(),
    {
    }

    /// Each stream is indexed under its own id.
    pub proof fn lemma_sids_match(&self)
        requires
            self.wf(),
        ensures
            forall|k: u32| #[trigger] self.by_sid().contains_key(k) ==> self.by_sid()[k].sid == k,
    {
        self.inner.lemma_keys_match();
    }

    /// A set for at most `max_concurrent` streams (at least one).
    pub fn new(max_concurrent: usize, seed: u64) -> (r: StreamSet)
        requires
            max_concurrent <= MAX_STREAM_SET_CAP,
        ensures
            r.wf(),
            r.items().len() == 0,
            r.by_sid() == Map::<u32, Stream>::empty(),
            r.limit() == if max_concurrent == 0 {
                1
            } else {
                max_concurrent as int
            },
    {
        let cap = if max_concurrent == 0 {
            1
        } else {
            max_concurrent
        };
        StreamSet { inner: SidIndex::new(cap * 2, seed, cap), cap }
    }

    pub fn len(&self) -> (r: usize)
        ensures
            r == self.items().len(),
    {
        self.inner.len()
    }

    pub fn cap(&self) -> (r: usize)
        ensures
            r == self.limit(),
    {
        self.cap
    }

    /// Number of slots of the id index.
    pub fn index_slots(&self) -> (r: usize)
        requires
            self.wf(),
        ensures
            r == self.index_capacity(),
    {
        self.inner.slot_count()
    }

    pub fn get(&self, sid: u32) -> (r: Option<&Stream>)
        requires
            self.wf(),
        ensures
            r == (if self.by_sid().contains_key(sid) {
                Some(&self.by_sid()[sid])
            } else {
                None
            }),
    {
        self.inner.get(sid)
    }

    pub fn get_mut(&mut self, sid: u32) -> (r: Option<&mut Stream>)
        requires
            old(self).wf(),
        ensures
            match r {
                Some(x) => {
                    &&& old(self).by_sid().contains_key(sid)
                    &&& *x == old(self).by_sid()[sid]
                    &&& (*final(x)).sid == sid ==> {
                        &&& final(self).wf()
                        &&& final(self).by_sid() == old(self).by_sid().insert(sid, *final(x))
                    }
                    &&& final(self).items().len() == old(self).items().len()
                    &&& final(self).limit() == old(self).limit()
                },
                None => !old(self).by_sid().contains_key(sid) && *final(self) == *old(self),
            },
    {
        self.inner.get_mut(sid)
    }

    /// Adds a stream unless the set is full or the id is already present.
    pub fn insert(&mut self, s: Stream) -> (r: bool)
        requires
            old(self).wf(),
        ensures
            set_insert_post(*old(self), s, r, *final(self)),
    {
        if self.inner.len() >= self.cap {
            return false;
        }
        self.inner.insert(s)
    }

    pub fn remove(&mut self, sid: u32) -> (r: Option<Stream>)
        requires
            old(self).wf(),
        ensures
            set_remove_post(*old(self), sid, r, *final(self)),
    {
        self.inner.remove(sid)
    }

    /// The stream at position `i` in table order, to change in place (what
    /// walking the set mutably gives); keeping its id keeps the set well
    /// formed.
    pub fn iter_mut(&mut self, i: usize) -> (r: &mut Stream)
        requires
            old(self).wf(),
            i < old(self).items().len(),
        ensures
            *r == old(self).items()[i as int],
            (*final(r)).sid == r.sid ==> {
                &&& final(self).wf()
                &&& final(self).items() == old(self).items().update(i as int, *final(r))
                &&& final(self).limit() == old(self).limit()
                &&& storable_key(r.sid) ==> final(self).by_sid() == old(self).by_sid().insert(r.sid, *final(r))
                &&& !storable_key(r.sid) ==> final(self).by_sid() == old(self).by_sid()
            },
    {
        self.inner.at_mut(i)
    }
}

// ---------------------------------------------------------------- upstream

#[derive(Clone, Copy, Debug, PartialEq, Eq)]
pub enum UpStreamState {
    Idle,
    Open,
    HalfClosedLocal,
    HalfClosedRemote,
    Closed,
}

/// The downstream stream an upstream stream serves.
#[derive(Clone, Copy, Debug)]
pub struct DownLink {
    pub down: ConnKey,
    pub down_sid: u32,
}

/// A stream of an upstream connection.
#[derive(Clone, Copy, Debug)]
pub struct UpStream {
    pub sid: u32,
    pub state: UpStreamState,
    pub send_win: i64,
    pub recv_win: i64,
    pub down: DownLink,
}

impl UpStream {
    pub fn new(sid: u32, init_send: u32, init_recv: u32, down: DownLink) -> (r: UpStream)
        ensures
            r.sid == sid,
            r.state == UpStreamState::Open,
            r.send_win == init_send,
            r.recv_win == init_recv,
            r.down == down,
    {
        UpStream { sid, state: UpStreamState::Open, send_win: init_send as i64, recv_win: init_recv as i64, down }
    }
}

impl Keyed for UpStream {
    open spec fn key_of(&self) -> u32 {
        self.sid
    }

    fn key(&self) -> (r: u32) {
        self.sid
    }
}

/// A send window may hold `w`: it fits in `i64` and does not pass 2^31 - 1.
pub open spec fn window_fits(w: int) -> bool {
    i64::MIN <= w <= 0x7fff_ffff
}

/// `b` is `a` but for its send window.
pub open spec fn up_same_but_send(a: UpStream, b: UpStream) -> bool {
    &&& b.sid == a.sid && b.state == a.state && b.recv_win == a.recv_win && b.down == a.down
}

/// The streams of an upstream connection.
pub struct StreamTable {
    inner: SidIndex<UpStream>,
}

impl StreamTable {
    pub closed spec fn wf(&self) -> bool {
        self.inner.wf()
    }

    pub closed spec fn items(&self) -> Seq<UpStream> {
        self.inner.items()
    }

    pub closed spec fn by_sid(&self) -> Map<u32, UpStream> {
        self.inner.by_sid()
    }

    pub closed spec fn index_capacity(&self) -> nat {
        self.inner.index_capacity()
    }

    /// Each stream is indexed under its own id.
    pub proof fn lemma_sids_match(&self)
        requires
            self.wf(),
        ensures
            forall|k: u32| #[trigger] self.by_sid().contains_key(k) ==> self.by_sid()[k].sid == k,
    {
        self.inner.lemma_keys_match();
    }

    /// Adds `d` to the send window of every stream, in table order, and
    /// stops at the first window that would pass 2^31 - 1 (or leave the
    /// range of `i64`), reporting the overflow; streams after it are left
    /// as they were.
    pub fn shift_send_windows(&mut self, d: i64) -> (overflow: bool)
        requires
            old(self).wf(),
        ensures
            final(self).wf(),
            final(self).items().len() == old(self).items().len(),
            final(self).by_sid().dom() == old(self).by_sid().dom(),
            forall|k: u32| #[trigger] final(self).by_sid().contains_key(k) ==> up_same_but_send(
                old(self).by_sid()[k],
                final(self).by_sid()[k],
            ),
            !overflow ==> forall|k: u32| #[trigger] final(self).by_sid().contains_key(k)
                ==> final(self).by_sid()[k].send_win == old(self).by_sid()[k].send_win + d,
            overflow <==> exists|i: int| 0 <= i < old(self).items().len() && !window_fits(
                #[trigger] old(self).items()[i].send_win + d,
            ),
    {
        let n = self.inner.len();
        let mut i: usize = 0;
        let ghost m0 = self.inner.by_sid();
        let ghost v0 = self.inner.items();
        proof {
            self.inner.lemma_positions();
        }
        while i < n
            invariant
                self.wf(),
                n == self.inner.items().len(),
                n == v0.len(),
                i <= n,
                m0 == old(self).by_sid(),
                v0 == old(self).items(),
                self.inner.by_sid().dom() == m0.dom(),
                forall|k: u32| #[trigger] self.inner.pos_of(k) == old(self).inner.pos_of(k),
                forall|k: u32| #[trigger] m0.contains_key(k) ==> 0 <= old(self).inner.pos_of(k) < n
                    && v0[old(self).inner.pos_of(k)] == m0[k],
                forall|j: int| 0 <= j < i ==> window_fits((#[trigger] v0[j]).send_win + d),
                forall|j: int| 0 <= j < n ==> up_same_but_send(v0[j], #[trigger] self.inner.items()[j]),
                forall|j: int| 0 <= j < i ==> (#[trigger] self.inner.items()[j]).send_win == v0[j].send_win + d,
                forall|j: int| i <= j < n ==> (#[trigger] self.inner.items()[j]).send_win == v0[j].send_win,
            decreases n - i,
        {
            proof {
                self.inner.lemma_positions();
            }
            let cur = *self.inner.at(i);
            let next = match cur.send_win.checked_add(d) {
                Some(x) => x,
                None => {
                    proof {
                        assert(!window_fits(v0[i as int].send_win + d));
                        assert forall|k: u32| #[trigger] self.by_sid().contains_key(k) implies up_same_but_send(
                            m0[k],
                            self.by_sid()[k],
                        ) by {
                            assert(self.inner.items()[old(self).inner.pos_of(k)] == self.inner.by_sid()[k]);
                        }
                    }
                    return true;
                },
            };
            let mut upd = cur;
            upd.send_win = next;
            self.inner.replace_at(i, upd);
            if next > 0x7fff_ffff {
                proof {
                    assert(!window_fits(v0[i as int].send_win + d));
                    self.inner.lemma_positions();
                    assert forall|k: u32| #[trigger] self.by_sid().contains_key(k) implies up_same_but_send(
                        m0[k],
                        self.by_sid()[k],
                    ) by {
                        let p = old(self).inner.pos_of(k);
                        assert(self.inner.items()[p] == self.inner.by_sid()[k]);
                        if p != i {
                            assert(up_same_but_send(v0[p], self.inner.items()[p]));
                        }
                    }
                }
                return true;
            }
            i = i + 1;
        }
        proof {
            self.inner.lemma_positions();
            assert forall|k: u32| #[trigger] self.by_sid().contains_key(k) implies up_same_but_send(
                m0[k],
                self.by_sid()[k],
            ) && self.by_sid()[k].send_win == m0[k].send_win + d by {
                let p = old(self).inner.pos_of(k);
                assert(self.inner.items()[p] == self.inner.by_sid()[k]);
            }
        }
        false
    }

    pub fn new(seed: u64) -> (r: StreamTable)
        ensures
            r.wf(),
            r.items().len() == 0,
            r.by_sid() == Map::<u32, UpStream>::empty(),
            r.index_capacity() == 2048,
    {
        let cap = 1024usize;
        let inner = SidIndex::new(cap * 2, seed, 256);
        proof {
            vstd::arithmetic::power2::lemma2_to64();
        }
        StreamTable { inner }
    }

    pub fn len(&self) -> (r: usize)
        ensures
            r == self.items().len(),
    {
        self.inner.len()
    }

    pub fn get(&self, sid: u32) -> (r: Option<&UpStream>)
        requires
            self.wf(),
        ensures
            r == (if self.by_sid().contains_key(sid) {
                Some(&self.by_sid()[sid])
            } else {
                None
            }),
    {
        self.inner.get(sid)
    }

    pub fn get_mut(&mut self, sid: u32) -> (r: Option<&mut UpStream>)
        requires
            old(self).wf(),
        ensures
            match r {
                Some(x) => {
                    &&& old(self).by_sid().contains_key(sid)
                    &&& *x == old(self).by_sid()[sid]
                    &&& (*final(x)).sid == sid ==> {
                        &&& final(self).wf()
                        &&& final(self).by_sid() == old(self).by_sid().insert(sid, *final(x))
                    }
                    &&& final(self).items().len() == old(self).items().len()
                },
                None => !old(self).by_sid().contains_key(sid) && *final(self) == *old(self),
            },
    {
        self.inner.get_mut(sid)
    }

    pub fn insert(&mut self, s: UpStream) -> (r: bool)
        requires
            old(self).wf(),
            old(self).items().len() + 1 < 0x1_0000_0000,
        ensures
            final(self).wf(),
            old(self).by_sid().contains_key(s.sid) ==> !r && *final(self) == *old(self),
            !old(self).by_sid().contains_key(s.sid) ==> {
                &&& r ==> final(self).items() == old(self).items().push(s)
                &&& r ==> final(self).by_sid() == old(self).by_sid().insert(s.sid, s)
                &&& !r ==> final(self).by_sid() == old(self).by_sid()
                &&& !storable_key(s.sid) ==> !r && final(self).items() == old(self).items().push(s)
                &&& storable_key(s.sid) && old(self).index_capacity() < MAX_MAP_CAP ==> r
                &&& storable_key(s.sid) && old(self).items().len() + 1 < MAX_MAP_CAP ==> r
                &&& storable_key(s.sid) && !r ==> final(self).items() == old(self).items()
            },
    {
        self.inner.insert(s)
    }

    pub fn remove(&mut self, sid: u32) -> (r: Option<UpStream>)
        requires
            old(self).wf(),
        ensures
            final(self).wf(),
            r == (if old(self).by_sid().contains_key(sid) {
                Some(old(self).by_sid()[sid])
            } else {
                None
            }),
            final(self).by_sid() == old(self).by_sid().remove(sid),
            r is Some ==> final(self).items().len() + 1 == old(self).items().len(),
            r is None ==> *final(self) == *old(self),
    {
        self.inner.remove(sid)
    }
}

/// A stream set holds exactly the streams inserted and not removed since:
/// from a new set, through any changes whose ids can be stored (not 0 and
/// not `u32::MAX`), the last set finds under each id the stream
/// `set_model` names (so a stream is found only under its own id), holds
/// as many streams as ids, and never more than its limit.
pub proof fn law_set_holds_inserted_not_removed(states: Seq<StreamSet>, ops: Seq<SetOp>)
    requires
        states.len() == ops.len() + 1,
        states[0].wf(),
        states[0].items().len() == 0,
        states[0].by_sid() == Map::<u32, Stream>::empty(),
        forall|i: int| 0 <= i < ops.len() ==> set_op_post(states[i], #[trigger] ops[i], states[i + 1]),
        forall|i: int| 0 <= i < ops.len() ==> storable_key(set_op_sid(#[trigger] ops[i])),
    ensures
        states.last().by_sid() == set_model(ops, states[0].limit()),
        states.last().by_sid().dom().finite(),
        states.last().items().len() == states.last().by_sid().dom().len(),
        states.last().items().len() <= states.last().limit(),
        states.last().limit() == states[0].limit(),
        forall|k: u32| #[trigger] states.last().by_sid().contains_key(k) ==> states.last().by_sid()[k].sid == k,
    decreases ops.len(),
{
    let last = states.last();
    if ops.len() == 0 {
        assert(states.last() == states[0]);
        assert(last.by_sid().dom() =~= Set::<u32>::empty());
    } else {
        let n = ops.len() - 1;
        let pre = states.drop_last();
        assert(pre.len() == ops.drop_last().len() + 1);
        assert forall|i: int| 0 <= i < ops.drop_last().len() implies set_op_post(
            pre[i],
            #[trigger] ops.drop_last()[i],
            pre[i + 1],
        ) by {
            assert(ops.drop_last()[i] == ops[i]);
            assert(set_op_post(states[i], ops[i], states[i + 1]));
        }
        assert forall|i: int| 0 <= i < ops.drop_last().len() implies storable_key(
            set_op_sid(#[trigger] ops.drop_last()[i]),
        ) by {
            assert(ops.drop_last()[i] == ops[i]);
            assert(storable_key(set_op_sid(ops[i])));
        }
        law_set_holds_inserted_not_removed(pre, ops.drop_last());
        let a = states[n];
        assert(pre.last() == a);
        assert(set_op_post(states[n], ops[n], states[n + 1]));
        assert(storable_key(set_op_sid(ops[n])));
        assert(states[n + 1] == last);
        assert(ops.last() == ops[n]);
        a.lemma_within_limit();
        last.lemma_sids_match();
        assert(pre[0] == states[0]);
        let m = set_model(ops.drop_last(), states[0].limit());
        assert(a.by_sid() == m);
        match ops[n] {
            SetOp::Insert(s) => {
                let r = choose|r: bool| set_insert_post(a, s, r, last);
                assert(set_insert_post(a, s, r, last));
                if a.items().len() < a.limit() && !a.by_sid().contains_key(s.sid) {
                    assert(r);
                    assert(last.by_sid().dom() =~= a.by_sid().dom().insert(s.sid));
                }
            },
            SetOp::Remove(k) => {
                let r = choose|r: Option<Stream>| set_remove_post(a, k, r, last);
                assert(set_remove_post(a, k, r, last));
                assert(last.by_sid().dom() =~= a.by_sid().dom().remove(k));
            },
        }
    }
}

} // verus!
