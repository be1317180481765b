//! A fixed set of upstream connection slots, addressed by index and
//! generation, and the choice of the connection that takes the next stream.
use vstd::prelude::*;

use crate::h2_flow::ConnKey;
use crate::h2_up::UpstreamH2;

verus! {

struct Slot {
    gen: u32,
    conn: Option<UpstreamH2>,
}

/// Whether connection `c` takes a new stream: it is not draining and is
/// below the peer's concurrent-stream limit when one is known.
pub open spec fn up_ready(c: UpstreamH2) -> bool {
    !c.draining_now() && (c.peer_stream_limit() == 0 || c.stream_items().len() < c.peer_stream_limit())
}

/// `x` taken round a ring of `n` places, for `0 <= x < 2 * n`.
pub open spec fn wrap(x: int, n: int) -> int {
    if x >= n {
        x - n
    } else {
        x
    }
}

/// Upstream connections in slots; a slot's generation changes whenever its
/// connection is removed, so an old key no longer finds the slot.
pub struct UpstreamPool {
    slots: Vec<Slot>,
    rr: usize,
}

impl UpstreamPool {
    pub closed spec fn slot_count(&self) -> nat {
        self.slots@.len()
    }

    pub closed spec fn gen_at(&self, i: int) -> u32 {
        self.slots@[i].gen
    }

    pub closed spec fn conn_at(&self, i: int) -> Option<UpstreamH2> {
        self.slots@[i].conn
    }

    /// Where the next search for a ready connection starts.
    pub closed spec fn cursor(&self) -> int {
        self.rr as int
    }

    pub closed spec fn wf(&self) -> bool {
        &&& self.slots@.len() == 0 ==> self.rr == 0
        &&& self.slots@.len() > 0 ==> self.rr < self.slots@.len()
        &&& forall|i: int| 0 <= i < self.slots@.len() ==> (#[trigger] self.slots@[i]).gen >= 1
        &&& forall|i: int| 0 <= i < self.slots@.len() ==> ((#[trigger] self.slots@[i]).conn matches Some(c) ==> c.wf())
    }

    /// `key` names slot `key.idx` in its current generation.
    pub open spec fn key_live(&self, key: ConnKey) -> bool {
        key.idx < self.slot_count() && self.gen_at(key.idx as int) == key.gen
    }

    /// Slot `i` holds a connection that takes a new stream.
    pub open spec fn ready_at(&self, i: int) -> bool {
        self.conn_at(i) matches Some(c) && up_ready(c)
    }

    /// The first ready slot met going round from the cursor, starting `k`
    /// slots after it.
    pub open spec fn first_ready_from(&self, k: int) -> Option<int>
        decreases self.slot_count() - k,
    {
        if k < 0 || k >= self.slot_count() {
            None
        } else if self.ready_at(wrap(self.cursor() + k, self.slot_count() as int)) {
            Some(wrap(self.cursor() + k, self.slot_count() as int))
        } else {
            self.first_ready_from(k + 1)
        }
    }

    /// Only the connections of the slots change, and each stays there.
    pub open spec fn same_slots(&self, other: &Self) -> bool {
        &&& self.slot_count() == other.slot_count()
        &&& self.cursor() == other.cursor()
        &&& forall|i: int| 0 <= i < self.slot_count() ==> #[trigger] self.gen_at(i) == other.gen_at(i)
        &&& forall|i: int| 0 <= i < self.slot_count() ==> (#[trigger] self.conn_at(i) is Some <==> other.conn_at(i) is Some)
    }

    /// The same slots, generations and occupied slots as `other`.
    pub open spec fn same_layout(&self, other: &Self) -> bool {
        &&& self.slot_count() == other.slot_count()
        &&& forall|i: int| 0 <= i < self.slot_count() ==> #[trigger] self.gen_at(i) == other.gen_at(i)
        &&& forall|i: int| 0 <= i < self.slot_count() ==> (#[trigger] self.conn_at(i) is Some <==> other.conn_at(i) is Some)
    }

    /// `max_conns` empty slots, all in generation 1.
    pub fn new(max_conns: usize) -> (r: Self)
        ensures
            r.wf(),
            r.slot_count() == max_conns,
            r.cursor() == 0,
            forall|i: int| 0 <= i < max_conns ==> #[trigger] r.gen_at(i) == 1 && r.conn_at(i) is None,
    {
        let mut slots: Vec<Slot> = Vec::new();
        let mut i: usize = 0;
        while i < max_conns
            invariant
                i <= max_conns,
                slots@.len() == i,
                forall|j: int| 0 <= j < i ==> (#[trigger] slots@[j]).gen == 1 && slots@[j].conn is None,
            decreases max_conns - i,
        {
            slots.push(Slot { gen: 1, conn: None });
            i = i + 1;
        }
        UpstreamPool { slots, rr: 0 }
    }

    /// Puts `conn` in slot `idx` and returns its key.
    pub fn insert(&mut self, idx: usize, conn: UpstreamH2) -> (key: ConnKey)
        requires
            old(self).wf(),
            idx < old(self).slot_count(),
            conn.wf(),
        ensures
            final(self).wf(),
            key.idx == idx as u32,
            key.gen == old(self).gen_at(idx as int),
            final(self).slot_count() == old(self).slot_count(),
            final(self).cursor() == old(self).cursor(),
            final(self).conn_at(idx as int) == Some(conn),
            forall|i: int| 0 <= i < final(self).slot_count() ==> #[trigger] final(self).gen_at(i) == old(self).gen_at(i),
            forall|i: int| 0 <= i < final(self).slot_count() && i != idx ==> #[trigger] final(self).conn_at(i) == old(self).conn_at(i),
    {
        let gen = self.slots[idx].gen;
        self.slots.set(idx, Slot { gen, conn: Some(conn) });
        ConnKey::new(idx as u32, gen)
    }

    /// Takes the connection out of the slot `key` names, and moves the slot
    /// to its next generation (skipping 0); an old key finds nothing.
    pub fn remove(&mut self, key: ConnKey) -> (r: Option<UpstreamH2>)
        requires
            old(self).wf(),
        ensures
            final(self).wf(),
            !old(self).key_live(key) ==> r is None && *final(self) == *old(self),
            old(self).key_live(key) ==> {
                let i = key.idx as int;
                let g = old(self).gen_at(i);
                &&& r == old(self).conn_at(i)
                &&& final(self).conn_at(i) is None
                &&& final(self).gen_at(i) == if g == u32::MAX { 1 } else { (g + 1) as u32 }
                &&& final(self).slot_count() == old(self).slot_count()
                &&& final(self).cursor() == old(self).cursor()
                &&& forall|j: int| 0 <= j < final(self).slot_count() && j != i ==> #[trigger] final(self).gen_at(j) == old(self).gen_at(j)
                    && final(self).conn_at(j) == old(self).conn_at(j)
            },
    {
        let idx = key.idx as usize;
        if idx >= self.slots.len() {
            return None;
        }
        if self.slots[idx].gen != key.gen {
            return None;
        }
        let g = self.slots[idx].gen;
        let next = if g == u32::MAX { 1 } else { g + 1 };
        let mut taken = Slot { gen: next, conn: None };
        std::mem::swap(&mut taken, &mut self.slots[idx]);
        let c = taken.conn;
        c
    }

    /// The connection the key names, to change it.
    pub fn get_mut(&mut self, key: ConnKey) -> (r: Option<&mut UpstreamH2>)
        requires
            old(self).wf(),
        ensures
            match r {
                Some(u) => {
                    &&& old(self).key_live(key)
                    &&& old(self).conn_at(key.idx as int) == Some(*u)
                    &&& u.wf()
                    &&& final(self).conn_at(key.idx as int) == Some(*final(u))
                    &&& final(self).same_slots(old(self))
                    &&& forall|j: int| 0 <= j < final(self).slot_count() && j != key.idx ==> #[trigger] final(self).conn_at(j)
                        == old(self).conn_at(j)
                    &&& final(u).wf() ==> final(self).wf()
                },
                None => !(old(self).key_live(key) && old(self).conn_at(key.idx as int) is Some) && *final(self) == *old(self),
            },
    {
        let idx = key.idx as usize;
        if idx >= self.slots.len() {
            return None;
        }
        if self.slots[idx].gen != key.gen {
            return None;
        }
        if self.slots[idx].conn.is_none() {
            return None;
        }
        let slot = &mut self.slots[idx];
        slot.conn.as_mut()
    }

    /// The connection the key names.
    pub fn get(&self, key: ConnKey) -> (r: Option<&UpstreamH2>)
        requires
            self.wf(),
        ensures
            r == if self.key_live(key) {
                match self.conn_at(key.idx as int) {
                    Some(c) => Some(&c),
                    None => None,
                }
            } else {
                None
            },
    {
        let idx = key.idx as usize;
        if idx >= self.slots.len() {
            return None;
        }
        if self.slots[idx].gen != key.gen {
            return None;
        }
        match &self.slots[idx].conn {
            Some(c) => Some(c),
            None => None,
        }
    }

    /// The key of the first connection that takes a new stream, going round
    /// the slots from the cursor; the cursor then moves past it.
    pub fn pick_ready(&mut self) -> (r: Option<ConnKey>)
        requires
            old(self).wf(),
        ensures
            final(self).wf(),
            match old(self).first_ready_from(0) {
                Some(i) => {
                    &&& r == Some(ConnKey { idx: i as u32, gen: old(self).gen_at(i) })
                    &&& final(self).cursor() == wrap(i + 1, old(self).slot_count() as int)
                },
                None => r is None && final(self).cursor() == old(self).cursor(),
            },
            final(self).slot_count() == old(self).slot_count(),
            forall|i: int| 0 <= i < final(self).slot_count() ==> #[trigger] final(self).gen_at(i) == old(self).gen_at(i)
                && final(self).conn_at(i) == old(self).conn_at(i),
            final(self).same_layout(old(self)),
    {
        let n = self.slots.len();
        if n == 0 {
            return None;
        }
        let mut k: usize = 0;
        while k < n
            invariant
                self.wf(),
                n == self.slots@.len(),
                n > 0,
                k <= n,
                *self == *old(self),
                old(self).first_ready_from(0) == old(self).first_ready_from(k as int),
            decreases n - k,
        {
            let i = if k < n - self.rr { self.rr + k } else { k - (n - self.rr) };
            let ready = match &self.slots[i].conn {
                Some(c) => c.can_open_stream(),
                None => false,
            };
            if ready {
                let gen = self.slots[i].gen;
                self.rr = if i + 1 == n { 0 } else { i + 1 };
                return Some(ConnKey::new(i as u32, gen));
            }
            k = k + 1;
        }
        None
    }
}

} // verus!
