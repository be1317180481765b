//! Fast u32 -> u32 map: open addressing with linear probing, tombstones and
//! automatic rehash. Key 0 marks an empty slot and `u32::MAX` a tombstone,
//! so neither can be stored.
use vstd::prelude::*;
use vstd::bits::{low_bits_mask, lemma_usize_low_bits_mask_is_mod};
use vstd::arithmetic::power2::{pow2, lemma_pow2_unfold, lemma_pow2_pos};

verus! {

/// Key of an empty slot.
pub const EMPTY_KEY: u32 = 0;

/// Key of a slot whose entry was removed.
pub const TOMB_KEY: u32 = 0xffff_ffff;

/// Largest slot count a map grows to.
pub const MAX_MAP_CAP: usize = 0x4000_0000;

/// Multiplier of the slot hash.
pub const HASH_MUL: u64 = 0x9e3779b97f4a7c15;

/// Keys the map can hold.
pub open spec fn storable_key(k: u32) -> bool {
    k != EMPTY_KEY && k != TOMB_KEY
}

/// Number of elements of `s` equal to `c`.
pub open spec fn count_of(s: Seq<u32>, c: u32) -> nat
    decreases s.len(),
{
    if s.len() == 0 {
        0
    } else {
        count_of(s.drop_last(), c) + if s.last() == c {
            1nat
        } else {
            0nat
        }
    }
}

proof fn lemma_count_le(s: Seq<u32>, c: u32)
    ensures
        count_of(s, c) <= s.len(),
    decreases s.len(),
{
    if s.len() > 0 {
        lemma_count_le(s.drop_last(), c);
    }
}

proof fn lemma_count_pair_le(s: Seq<u32>, a: u32, b: u32)
    requires
        a != b,
    ensures
        count_of(s, a) + count_of(s, b) <= s.len(),
    decreases s.len(),
{
    if s.len() > 0 {
        lemma_count_pair_le(s.drop_last(), a, b);
    }
}

/// A power of two below the slot limit can still double within it.
proof fn lemma_pow2_double_within(lg: nat)
    requires
        pow2(lg) < MAX_MAP_CAP,
    ensures
        2 * pow2(lg) <= MAX_MAP_CAP,
{
    vstd::arithmetic::power2::lemma2_to64();
    if lg >= 30 {
        if lg > 30 {
            vstd::arithmetic::power2::lemma_pow2_strictly_increases(30, lg);
        }
    } else if lg < 29 {
        vstd::arithmetic::power2::lemma_pow2_strictly_increases(lg, 29);
    }
}

proof fn lemma_count_update(s: Seq<u32>, i: int, v: u32, c: u32)
    requires
        0 <= i < s.len(),
    ensures
        count_of(s.update(i, v), c) + (if s[i] == c {
            1nat
        } else {
            0nat
        }) == count_of(s, c) + (if v == c {
            1nat
        } else {
            0nat
        }),
    decreases s.len(),
{
    let u = s.update(i, v);
    if i == s.len() - 1 {
        assert(u.drop_last() =~= s.drop_last());
    } else {
        assert(u.drop_last() =~= s.drop_last().update(i, v));
        lemma_count_update(s.drop_last(), i, v, c);
    }
}

proof fn lemma_count_zero_none(s: Seq<u32>, c: u32)
    requires
        forall|j: int| 0 <= j < s.len() ==> s[j] != c,
    ensures
        count_of(s, c) == 0,
    decreases s.len(),
{
    if s.len() > 0 {
        lemma_count_zero_none(s.drop_last(), c);
    }
}

proof fn lemma_count_all(n: nat, c: u32, d: u32)
    ensures
        count_of(Seq::new(n, |j: int| c), c) == n,
        c != d ==> count_of(Seq::new(n, |j: int| c), d) == 0,
    decreases n,
{
    if n > 0 {
        assert(Seq::new(n, |j: int| c).drop_last() =~= Seq::new((n - 1) as nat, |j: int| c));
        lemma_count_all((n - 1) as nat, c, d);
    }
}

/// For slots of a table of `cap` slots: walking `(i - h) mod cap` steps from
/// `h` reaches `i`.
proof fn lemma_probe_reaches(h: int, i: int, cap: int)
    requires
        0 <= h < cap,
        0 <= i < cap,
    ensures
        0 <= (i - h + cap) % cap < cap,
        (h + (i - h + cap) % cap) % cap == i,
{
    if i >= h {
        assert((i - h + cap) % cap == i - h) by {
            vstd::arithmetic::div_mod::lemma_mod_add_multiples_vanish(i - h, cap);
            vstd::arithmetic::div_mod::lemma_small_mod((i - h) as nat, cap as nat);
        }
        vstd::arithmetic::div_mod::lemma_small_mod(i as nat, cap as nat);
    } else {
        vstd::arithmetic::div_mod::lemma_small_mod((i - h + cap) as nat, cap as nat);
        vstd::arithmetic::div_mod::lemma_mod_add_multiples_vanish(i, cap);
        vstd::arithmetic::div_mod::lemma_small_mod(i as nat, cap as nat);
    }
}

proof fn lemma_probe_step(h: int, t: int, cap: int)
    requires
        0 <= h < cap,
        0 <= t,
        cap > 1,
    ensures
        ((h + t) % cap + 1) % cap == (h + t + 1) % cap,
        0 <= (h + t) % cap < cap,
{
    vstd::arithmetic::div_mod::lemma_add_mod_noop(h + t, 1, cap);
    vstd::arithmetic::div_mod::lemma_mod_bound(h + t, cap);
    vstd::arithmetic::div_mod::lemma_small_mod(1, cap as nat);
}

pub struct U32Map {
    keys: Vec<u32>,
    vals: Vec<u32>,
    mask: usize,
    live: usize,
    tomb: usize,
    seed: u64,
    log_cap: Ghost<nat>,
    contents: Ghost<Map<u32, u32>>,
}

impl View for U32Map {
    type V = Map<u32, u32>;

    closed spec fn view(&self) -> Map<u32, u32> {
        self.contents@
    }
}

/// What `U32Map::insert` of `k -> v` into `a` answers (`r`) and leaves
/// (`b`): keys 0 and `u32::MAX` are refused, and others stored while the
/// table can grow; the table grows only when 70% of its slots are used
/// (tombstones included), and a stored key leaves fewer tombstones than half
/// the entries (or none, for an empty map).
pub open spec fn map_insert_post(a: U32Map, k: u32, v: u32, r: bool, b: U32Map) -> bool {
    &&& b.wf()
    &&& r ==> b@ == a@.insert(k, v)
    &&& !r ==> b@ == a@
    &&& !storable_key(k) ==> !r
    &&& storable_key(k) && a.capacity() < MAX_MAP_CAP ==> r
    &&& storable_key(k) && a.live_count() + 1 < MAX_MAP_CAP ==> r
    &&& r && !a@.contains_key(k) ==> b.live_count() == a.live_count() + 1
    &&& !r || a@.contains_key(k) ==> b.live_count() == a.live_count()
    &&& b.capacity() <= 2 * a.capacity()
    &&& b.capacity() != a.capacity() ==> (a.live_count() + a.tombstones()) * 10 >= a.capacity() * 7
    &&& storable_key(k) ==> b.tombstones() * 2 < if b.live_count() == 0 {
        1
    } else {
        b.live_count()
    }
}

/// What `U32Map::remove` of `k` from `a` answers (`r`) and leaves (`b`): the
/// key's slot becomes a tombstone.
pub open spec fn map_remove_post(a: U32Map, k: u32, r: Option<u32>, b: U32Map) -> bool {
    &&& b.wf()
    &&& r == (if a@.contains_key(k) {
        Some(a@[k])
    } else {
        None
    })
    &&& b@ == a@.remove(k)
    &&& b.capacity() == a.capacity()
    &&& r is None ==> b == a
    &&& r is Some ==> b.live_count() + 1 == a.live_count()
    &&& r is Some ==> b.tombstones() == a.tombstones() + 1
}

/// One change to a map.
pub enum MapOp {
    Insert(u32, u32),
    Remove(u32),
}

/// `b` is what the change `op` may leave of `a`, by the contract of the
/// method that makes it.
pub open spec fn map_op_post(a: U32Map, op: MapOp, b: U32Map) -> bool {
    match op {
        MapOp::Insert(k, v) => exists|r: bool| map_insert_post(a, k, v, r, b),
        MapOp::Remove(k) => exists|r: Option<u32>| map_remove_post(a, k, r, b),
    }
}

/// Inserts and removes that never leave more than `bound` entries do not
/// grow a fresh map whose slots are enough for them (15 times the bound, or
/// 15, at most 7 times the slots): its slot count never changes, so churn
/// of short-lived keys keeps the table at its first size.
pub proof fn law_churn_keeps_capacity(states: Seq<U32Map>, ops: Seq<MapOp>, bound: nat)
    requires
        states.len() == ops.len() + 1,
        states[0].wf(),
        states[0].live_count() == 0,
        states[0].tombstones() == 0,
        15 * (if bound == 0 {
            1
        } else {
            bound
        }) <= 7 * states[0].capacity(),
        forall|i: int| 0 <= i < ops.len() ==> map_op_post(states[i], #[trigger] ops[i], states[i + 1]),
        forall|i: int|
            0 <= i < ops.len() ==> (#[trigger] ops[i] matches MapOp::Insert(k, _) ==> storable_key(k)
                && states[i + 1].live_count() <= bound),
    ensures
        forall|i: int| 0 <= i < states.len() ==> #[trigger] states[i].capacity() == states[0].capacity(),
{
    let m: int = if bound == 0 {
        1
    } else {
        bound as int
    };
    assert forall|i: int| 0 <= i < states.len() implies #[trigger] states[i].capacity() == states[0].capacity()
        && 2 * (states[i].live_count() + states[i].tombstones()) < 3 * m by {
        lemma_churn_step(states, ops, bound, i);
    }
}

proof fn lemma_churn_step(states: Seq<U32Map>, ops: Seq<MapOp>, bound: nat, i: int)
    requires
        states.len() == ops.len() + 1,
        states[0].live_count() == 0,
        states[0].tombstones() == 0,
        15 * (if bound == 0 {
            1
        } else {
            bound
        }) <= 7 * states[0].capacity(),
        forall|j: int| 0 <= j < ops.len() ==> map_op_post(states[j], #[trigger] ops[j], states[j + 1]),
        forall|j: int|
            0 <= j < ops.len() ==> (#[trigger] ops[j] matches MapOp::Insert(k, _) ==> storable_key(k)
                && states[j + 1].live_count() <= bound),
        0 <= i < states.len(),
    ensures
        states[i].capacity() == states[0].capacity(),
        2 * (states[i].live_count() + states[i].tombstones()) < 3 * (if bound == 0 {
            1
        } else {
            bound as int
        }),
    decreases i,
{
    if i > 0 {
        lemma_churn_step(states, ops, bound, i - 1);
        let a = states[i - 1];
        let b = states[i];
        assert(map_op_post(a, ops[i - 1], b));
        match ops[i - 1] {
            MapOp::Insert(k, v) => {
                let r = choose|r: bool| map_insert_post(a, k, v, r, b);
                assert(map_insert_post(a, k, v, r, b));
                assert(storable_key(k) && b.live_count() <= bound);
            },
            MapOp::Remove(k) => {
                let r = choose|r: Option<u32>| map_remove_post(a, k, r, b);
                assert(map_remove_post(a, k, r, b));
            },
        }
    }
}

impl U32Map {
    /// Number of slots.
    pub closed spec fn capacity(&self) -> nat {
        self.keys@.len()
    }

    /// Seed of the slot hash.
    pub closed spec fn hash_seed(&self) -> u64 {
        self.seed
    }

    /// Number of tombstone slots.
    pub closed spec fn tombstones(&self) -> nat {
        self.tomb as nat
    }

    /// Number of slots holding an entry.
    pub closed spec fn live_count(&self) -> nat {
        self.live as nat
    }

    /// The slot a key's probe sequence starts at.
    spec fn home(&self, k: u32) -> int {
        ((vstd::wrapping::u64_specs::wrapping_mul((k as u64) ^ self.seed, HASH_MUL) as usize)
            & self.mask) as int
    }

    /// Slot visited at step `t` of the probe sequence of `k`.
    spec fn probe(&self, k: u32, t: int) -> int {
        (self.home(k) + t) % (self.keys@.len() as int)
    }

    /// How far a slot lies from the start of its key's probe sequence.
    spec fn dist(&self, i: int) -> int {
        (i - self.home(self.keys@[i]) + self.keys@.len()) % (self.keys@.len() as int)
    }

    /// Every step of the probe sequence before slot `i` is occupied.
    spec fn path_ok(&self, i: int) -> bool {
        forall|t: int| 0 <= t < self.dist(i) ==> self.keys@[#[trigger] self.probe(self.keys@[i], t)] != EMPTY_KEY
    }

    spec fn used(&self) -> int {
        self.live + self.tomb
    }

    /// Well-formedness of the table.
    pub closed spec fn wf(&self) -> bool {
        let cap = self.keys@.len();
        &&& self.vals@.len() == cap
        &&& cap == pow2(self.log_cap@)
        &&& 16 <= cap <= MAX_MAP_CAP
        &&& self.mask == cap - 1
        &&& self.tomb == count_of(self.keys@, TOMB_KEY)
        &&& self.live + self.tomb + count_of(self.keys@, EMPTY_KEY) == cap
        &&& self.live + self.tomb < cap
        &&& forall|i: int, j: int|
            #![trigger self.keys@[i], self.keys@[j]]
            0 <= i < cap && 0 <= j < cap && storable_key(self.keys@[i]) && self.keys@[i]
                == self.keys@[j] ==> i == j
        &&& forall|i: int| 0 <= i < cap && storable_key(#[trigger] self.keys@[i]) ==> self.path_ok(i)
        &&& forall|i: int|
            0 <= i < cap && storable_key(#[trigger] self.keys@[i]) ==> self.contents@.contains_key(
                self.keys@[i],
            ) && self.contents@[self.keys@[i]] == self.vals@[i]
        &&& forall|k: u32|
            #[trigger] self.contents@.contains_key(k) ==> storable_key(k) && exists|i: int|
                0 <= i < cap && #[trigger] self.keys@[i] == k
    }

    proof fn lemma_mask(&self, x: usize)
        requires
            self.wf(),
        ensures
            (x & self.mask) as int == x as int % (self.keys@.len() as int),
            (x & self.mask) < self.keys@.len(),
    {
        let n = self.log_cap@;
        vstd::bits::lemma_low_bits_mask_values();
        assert(n < usize::BITS) by {
            if n >= usize::BITS {
                vstd::arithmetic::power2::lemma_pow2_strictly_increases(31, n);
                assert(pow2(31) == 0x8000_0000) by {
                    vstd::arithmetic::power2::lemma2_to64();
                }
            }
        }
        lemma_usize_low_bits_mask_is_mod(x, n);
        lemma_pow2_pos(n);
        assert(low_bits_mask(n) == pow2(n) - 1);
        vstd::arithmetic::div_mod::lemma_mod_bound(x as int, self.keys@.len() as int);
    }

    fn hash(&self, k: u32) -> (r: usize)
        requires
            self.wf(),
        ensures
            r == self.home(k),
            r < self.keys@.len(),
    {
        let x = ((k as u64) ^ self.seed).wrapping_mul(HASH_MUL);
        proof {
            self.lemma_mask(x as usize);
        }
        (x as usize) & self.mask
    }

    /// A table is empty-slot-free only if it has no empty slot count.
    proof fn lemma_has_empty(&self)
        requires
            self.wf(),
        ensures
            exists|j: int| 0 <= j < self.keys@.len() && self.keys@[j] == EMPTY_KEY,
    {
        if forall|j: int| 0 <= j < self.keys@.len() ==> self.keys@[j] != EMPTY_KEY {
            lemma_count_zero_none(self.keys@, EMPTY_KEY);
        }
    }

    /// If the probe sequence of `k` reaches an empty slot at step `t` without
    /// meeting `k`, the key is not stored.
    proof fn lemma_absent(&self, k: u32, t: int)
        requires
            self.wf(),
            0 <= t < self.keys@.len(),
            self.keys@[self.probe(k, t)] == EMPTY_KEY,
            forall|s: int| 0 <= s < t ==> self.keys@[#[trigger] self.probe(k, s)] != k,
        ensures
            !self@.contains_key(k),
    {
        if self@.contains_key(k) {
            let i = choose|i: int| 0 <= i < self.keys@.len() && #[trigger] self.keys@[i] == k;
            let cap = self.keys@.len() as int;
            self.lemma_mask(0);
            let h = self.home(k);
            assert(0 <= h < cap) by {
                self.lemma_mask(vstd::wrapping::u64_specs::wrapping_mul(
                    (k as u64) ^ self.seed,
                    HASH_MUL,
                ) as usize);
            }
            lemma_probe_reaches(h, i, cap);
            let d = self.dist(i);
            assert(self.probe(k, d) == i);
            assert(self.path_ok(i));
            if d < t {
                assert(self.keys@[self.probe(k, d)] != k);
            } else if d == t {
            } else {
                assert(self.keys@[self.probe(self.keys@[i], t)] != EMPTY_KEY);
            }
        }
    }

    /// Some step of every probe sequence lands on an empty slot.
    proof fn lemma_probe_finds_empty(&self, k: u32)
        requires
            self.wf(),
        ensures
            exists|s: int|
                0 <= s < self.keys@.len() && self.keys@[#[trigger] self.probe(k, s)] == EMPTY_KEY,
    {
        let cap = self.keys@.len() as int;
        let h = self.home(k);
        assert(0 <= h < cap) by {
            self.lemma_mask(vstd::wrapping::u64_specs::wrapping_mul(
                (k as u64) ^ self.seed,
                HASH_MUL,
            ) as usize);
        }
        self.lemma_has_empty();
        let j = choose|j: int| 0 <= j < cap && self.keys@[j] == EMPTY_KEY;
        lemma_probe_reaches(h, j, cap);
        assert(self.probe(k, (j - h + cap) % cap) == j);
    }

    /// Creates a map with at least `cap` slots (16 at least, rounded up to a
    /// power of two).
    pub fn with_capacity_pow2(cap: usize, seed: u64) -> (r: U32Map)
        requires
            cap <= MAX_MAP_CAP,
        ensures
            r.wf(),
            r@ == Map::<u32, u32>::empty(),
            r.capacity() >= cap,
            r.capacity() >= 16,
            cap <= 16 ==> r.capacity() == 16,
            r.capacity() < 2 * cap || r.capacity() == 16,
            forall|e: nat| cap == pow2(e) && cap >= 16 ==> r.capacity() == cap,
            r.hash_seed() == seed,
            r.tombstones() == 0,
            r.live_count() == 0,
    {
        let mut c: usize = 16;
        let ghost mut lg: nat = 4;
        proof {
            vstd::arithmetic::power2::lemma2_to64();
        }
        while c < cap
            invariant
                c == pow2(lg),
                16 <= c <= MAX_MAP_CAP,
                cap <= MAX_MAP_CAP,
                c == 16 || c < 2 * cap,
                cap <= 16 ==> c == 16,
                forall|e: nat| cap == pow2(e) && cap >= 16 ==> c <= cap,
            decreases MAX_MAP_CAP - c,
        {
            proof {
                lemma_pow2_unfold(lg + 1);
                assert(c <= MAX_MAP_CAP / 2) by {
                    vstd::arithmetic::power2::lemma2_to64();
                    if lg >= 30 {
                        if lg > 30 {
                            vstd::arithmetic::power2::lemma_pow2_strictly_increases(30, lg);
                        }
                    } else if lg < 29 {
                        vstd::arithmetic::power2::lemma_pow2_strictly_increases(lg, 29);
                    }
                }
            }
            proof {
                assert forall|e: nat| cap == pow2(e) && cap >= 16 implies 2 * c <= cap by {
                    if e <= lg {
                        if e < lg {
                            vstd::arithmetic::power2::lemma_pow2_strictly_increases(e, lg);
                        }
                    } else if e > lg + 1 {
                        vstd::arithmetic::power2::lemma_pow2_strictly_increases(lg + 1, e);
                    }
                }
            }
            c = c * 2;
            proof {
                lg = lg + 1;
            }
        }
        let keys: Vec<u32> = vec![0u32; c];
        let vals: Vec<u32> = vec![0u32; c];
        proof {
            assert(keys@ =~= Seq::new(c as nat, |j: int| 0u32));
            lemma_count_all(c as nat, 0u32, TOMB_KEY);
        }
        let r = U32Map {
            keys,
            vals,
            mask: c - 1,
            live: 0,
            tomb: 0,
            seed,
            log_cap: Ghost(lg),
            contents: Ghost(Map::empty()),
        };
        r
    }

    /// Whether the table needs a rehash before the next insertion: the load
    /// (tombstones included) reached 70%, or tombstones reached half the live
    /// entries.
    fn should_rehash(&self) -> (r: bool)
        requires
            self.wf(),
        ensures
            r == ((self.used() * 10 >= self.keys@.len() * 7) || (self.tomb * 2 >= (if self.live
                == 0 {
                1
            } else {
                self.live as int
            }))),
    {
        let cap = self.keys.len() as u64;
        let used = (self.live + self.tomb) as u64;
        let live_or_one = if self.live == 0 {
            1
        } else {
            self.live
        };
        used * 10 >= cap * 7 || (self.tomb as u64) * 2 >= live_or_one as u64
    }

    /// Placing an absent key into a free slot at step `d` of its probe
    /// sequence, with every earlier step occupied, keeps the table well formed.
    proof fn lemma_after_place(&self, old: U32Map, k: u32, v: u32, p: int, d: int)
        requires
            old.wf(),
            storable_key(k),
            !old@.contains_key(k),
            old.used() + 1 < old.keys@.len(),
            0 <= d < old.keys@.len(),
            p == old.probe(k, d),
            old.keys@[p] == EMPTY_KEY || old.keys@[p] == TOMB_KEY,
            forall|s: int| 0 <= s < d ==> old.keys@[#[trigger] old.probe(k, s)] != EMPTY_KEY,
            self.keys@ == old.keys@.update(p, k),
            self.vals@ == old.vals@.update(p, v),
            self.mask == old.mask,
            self.seed == old.seed,
            self.log_cap@ == old.log_cap@,
            self.live == old.live + 1,
            self.tomb + (if old.keys@[p] == TOMB_KEY {
                1int
            } else {
                0int
            }) == old.tomb,
            self@ == old@.insert(k, v),
        ensures
            self.wf(),
    {
        let cap = old.keys@.len() as int;
        let h = old.home(k);
        assert(0 <= h < cap) by {
            old.lemma_mask(vstd::wrapping::u64_specs::wrapping_mul(
                (k as u64) ^ old.seed,
                HASH_MUL,
            ) as usize);
        }
        assert(0 <= p < cap) by {
            vstd::arithmetic::div_mod::lemma_mod_bound(h + d, cap);
        }
        lemma_count_update(old.keys@, p, k, TOMB_KEY);
        lemma_count_update(old.keys@, p, k, EMPTY_KEY);
        assert(self.dist(p) == d) by {
            lemma_dist_inverse(h, d, cap);
        }
        assert forall|i: int| 0 <= i < cap && storable_key(#[trigger] self.keys@[i]) implies self.path_ok(
            i,
        ) by {
            if i == p {
                assert forall|t: int| 0 <= t < self.dist(i) implies self.keys@[#[trigger] self.probe(
                    self.keys@[i],
                    t,
                )] != EMPTY_KEY by {
                    assert(old.keys@[old.probe(k, t)] != EMPTY_KEY);
                }
            } else {
                assert(old.path_ok(i));
                assert forall|t: int| 0 <= t < self.dist(i) implies self.keys@[#[trigger] self.probe(
                    self.keys@[i],
                    t,
                )] != EMPTY_KEY by {
                    assert(old.keys@[old.probe(old.keys@[i], t)] != EMPTY_KEY);
                }
            }
        }
        assert forall|i: int, j: int|
            #![trigger self.keys@[i], self.keys@[j]]
            0 <= i < cap && 0 <= j < cap && storable_key(self.keys@[i]) && self.keys@[i]
                == self.keys@[j] implies i == j by {
            if i != p && j != p {
                assert(old.keys@[i] == old.keys@[j]);
            } else if i == p && j != p {
                assert(old.keys@[j] == k);
                assert(old@.contains_key(old.keys@[j]));
            } else if j == p && i != p {
                assert(old.keys@[i] == k);
                assert(old@.contains_key(old.keys@[i]));
            }
        }
        assert forall|i: int|
            0 <= i < cap && storable_key(#[trigger] self.keys@[i]) implies self@.contains_key(
            self.keys@[i],
        ) && self@[self.keys@[i]] == self.vals@[i] by {
            if i != p {
                assert(old@.contains_key(old.keys@[i]));
                if old.keys@[i] == k {
                    assert(false);
                }
            }
        }
        assert forall|kk: u32| #[trigger] self@.contains_key(kk) implies storable_key(kk) && exists|
            i: int,
        | 0 <= i < cap && #[trigger] self.keys@[i] == kk by {
            if kk == k {
                assert(self.keys@[p] == kk);
            } else {
                assert(old@.contains_key(kk));
                let i = choose|i: int| 0 <= i < cap && #[trigger] old.keys@[i] == kk;
                assert(i != p);
                assert(self.keys@[i] == kk);
            }
        }
    }

    /// Stores a key that is not in the map into the first free slot of its
    /// probe sequence.
    fn insert_no_rehash(&mut self, k: u32, v: u32)
        requires
            old(self).wf(),
            storable_key(k),
            !old(self)@.contains_key(k),
            old(self).used() + 1 < old(self).capacity(),
        ensures
            final(self).wf(),
            final(self)@ == old(self)@.insert(k, v),
            final(self).capacity() == old(self).capacity(),
            final(self).live == old(self).live + 1,
            final(self).tomb <= old(self).tomb,
            final(self).seed == old(self).seed,
            final(self).log_cap@ == old(self).log_cap@,
    {
        let ghost cap = self.keys@.len() as int;
        let h = self.hash(k);
        let mut idx = h;
        let ghost mut t: int = 0;
        proof {
            vstd::arithmetic::div_mod::lemma_small_mod(h as nat, cap as nat);
        }
        loop
            invariant
                self.wf(),
                *self == *old(self),
                storable_key(k),
                !self@.contains_key(k),
                self.used() + 1 < cap,
                cap == self.keys@.len(),
                0 <= t < cap,
                idx == self.probe(k, t),
                h == self.home(k),
                h < cap,
                forall|s: int|
                    0 <= s < t ==> storable_key(self.keys@[#[trigger] self.probe(k, s)]),
            decreases cap - t,
        {
            proof {
                lemma_probe_step(h as int, t, cap);
            }
            let key = self.keys[idx];
            if key == EMPTY_KEY || key == TOMB_KEY {
                let ghost before = *self;
                proof {
                    lemma_count_update(self.keys@, idx as int, k, TOMB_KEY);
                }
                if key == TOMB_KEY {
                    self.tomb = self.tomb.saturating_sub(1);
                }
                self.keys.set(idx, k);
                self.vals.set(idx, v);
                self.live = self.live + 1;
                proof {
                    self.contents@ = self.contents@.insert(k, v);
                    self.lemma_after_place(before, k, v, idx as int, t);
                }
                return;
            }
            proof {
                if t + 1 >= cap {
                    self.lemma_probe_finds_empty(k);
                    let s = choose|s: int|
                        0 <= s < cap && self.keys@[#[trigger] self.probe(k, s)] == EMPTY_KEY;
                    if s < t {
                        assert(storable_key(self.keys@[self.probe(k, s)]));
                    }
                }
            }
            let next = idx + 1;
            proof {
                self.lemma_mask(next);
            }
            idx = next & self.mask;
            proof {
                t = t + 1;
            }
        }
    }

    /// Looks a key up.
    pub fn get(&self, k: u32) -> (r: Option<u32>)
        requires
            self.wf(),
        ensures
            r == (if self@.contains_key(k) {
                Some(self@[k])
            } else {
                None
            }),
    {
        if k == EMPTY_KEY || k == TOMB_KEY {
            return None;
        }
        let ghost cap = self.keys@.len() as int;
        let h = self.hash(k);
        let mut idx = h;
        let ghost mut t: int = 0;
        proof {
            vstd::arithmetic::div_mod::lemma_small_mod(h as nat, cap as nat);
        }
        loop
            invariant
                self.wf(),
                storable_key(k),
                cap == self.keys@.len(),
                0 <= t < cap,
                idx == self.probe(k, t),
                h == self.home(k),
                h < cap,
                forall|s: int|
                    0 <= s < t ==> self.keys@[#[trigger] self.probe(k, s)] != k && self.keys@[self.probe(k, s)] != EMPTY_KEY,
            decreases cap - t,
        {
            proof {
                lemma_probe_step(h as int, t, cap);
            }
            let key = self.keys[idx];
            if key == EMPTY_KEY {
                proof {
                    self.lemma_absent(k, t);
                }
                return None;
            }
            if key == k {
                return Some(self.vals[idx]);
            }
            proof {
                if t + 1 >= cap {
                    self.lemma_probe_finds_empty(k);
                    let s = choose|s: int|
                        0 <= s < cap && self.keys@[#[trigger] self.probe(k, s)] == EMPTY_KEY;
                    if s < t {
                        assert(self.keys@[self.probe(k, s)] != EMPTY_KEY);
                    }
                }
            }
            let next = idx + 1;
            proof {
                self.lemma_mask(next);
            }
            idx = next & self.mask;
            proof {
                t = t + 1;
            }
        }
    }

    /// Only storable keys are ever stored.
    pub proof fn lemma_keys_storable(&self)
        requires
            self.wf(),
        ensures
            forall|k: u32| #[trigger] self@.contains_key(k) ==> storable_key(k),
    {
    }

    /// Number of slots.
    pub fn slot_count(&self) -> (r: usize)
        requires
            self.wf(),
        ensures
            r == self.capacity(),
    {
        self.keys.len()
    }

    /// Changing the value of a stored key keeps the table well formed.
    proof fn lemma_after_set_value(&self, old: U32Map, p: int, v: u32)
        requires
            old.wf(),
            0 <= p < old.keys@.len(),
            storable_key(old.keys@[p]),
            self.keys@ == old.keys@,
            self.vals@ == old.vals@.update(p, v),
            self.mask == old.mask,
            self.seed == old.seed,
            self.log_cap@ == old.log_cap@,
            self.live == old.live,
            self.tomb == old.tomb,
            self@ == old@.insert(old.keys@[p], v),
        ensures
            self.wf(),
    {
        let cap = old.keys@.len() as int;
        assert forall|i: int| 0 <= i < cap && storable_key(#[trigger] self.keys@[i]) implies self.path_ok(
            i,
        ) by {
            assert(old.path_ok(i));
            assert(self.dist(i) == old.dist(i));
            assert forall|t: int| 0 <= t < self.dist(i) implies self.keys@[#[trigger] self.probe(
                self.keys@[i],
                t,
            )] != EMPTY_KEY by {
                assert(self.probe(self.keys@[i], t) == old.probe(old.keys@[i], t));
                assert(old.keys@[old.probe(old.keys@[i], t)] != EMPTY_KEY);
            }
        }
        assert forall|i: int|
            0 <= i < cap && storable_key(#[trigger] self.keys@[i]) implies self@.contains_key(
            self.keys@[i],
        ) && self@[self.keys@[i]] == self.vals@[i] by {
            if i != p {
                assert(old.keys@[i] != old.keys@[p]);
            }
        }
        assert forall|kk: u32| #[trigger] self@.contains_key(kk) implies storable_key(kk) && exists|
            i: int,
        | 0 <= i < cap && #[trigger] self.keys@[i] == kk by {
            if kk == old.keys@[p] {
                assert(self.keys@[p] == kk);
            } else {
                assert(old@.contains_key(kk));
            }
        }
    }

    /// Turning the slot of a stored key into a tombstone keeps the table well
    /// formed.
    proof fn lemma_after_tomb(&self, old: U32Map, p: int)
        requires
            old.wf(),
            0 <= p < old.keys@.len(),
            storable_key(old.keys@[p]),
            self.keys@ == old.keys@.update(p, TOMB_KEY),
            self.vals@ == old.vals@,
            self.mask == old.mask,
            self.seed == old.seed,
            self.log_cap@ == old.log_cap@,
            self.live + 1 == old.live,
            self.tomb == old.tomb + 1,
            self@ == old@.remove(old.keys@[p]),
        ensures
            self.wf(),
    {
        let cap = old.keys@.len() as int;
        let k = old.keys@[p];
        lemma_count_update(old.keys@, p, TOMB_KEY, TOMB_KEY);
        lemma_count_update(old.keys@, p, TOMB_KEY, EMPTY_KEY);
        assert forall|i: int| 0 <= i < cap && storable_key(#[trigger] self.keys@[i]) implies self.path_ok(
            i,
        ) by {
            assert(i != p);
            assert(self.keys@[i] == old.keys@[i]);
            assert(old.path_ok(i));
            assert(self.dist(i) == old.dist(i));
            assert forall|t: int| 0 <= t < self.dist(i) implies self.keys@[#[trigger] self.probe(
                self.keys@[i],
                t,
            )] != EMPTY_KEY by {
                assert(self.probe(self.keys@[i], t) == old.probe(old.keys@[i], t));
                assert(old.keys@[old.probe(old.keys@[i], t)] != EMPTY_KEY);
            }
        }
        assert forall|i: int, j: int|
            #![trigger self.keys@[i], self.keys@[j]]
            0 <= i < cap && 0 <= j < cap && storable_key(self.keys@[i]) && self.keys@[i]
                == self.keys@[j] implies i == j by {
            assert(old.keys@[i] == old.keys@[j]);
        }
        assert forall|i: int|
            0 <= i < cap && storable_key(#[trigger] self.keys@[i]) implies self@.contains_key(
            self.keys@[i],
        ) && self@[self.keys@[i]] == self.vals@[i] by {
            assert(i != p);
            assert(old.keys@[i] != k);
            assert(old@.contains_key(old.keys@[i]));
        }
        assert forall|kk: u32| #[trigger] self@.contains_key(kk) implies storable_key(kk) && exists|
            i: int,
        | 0 <= i < cap && #[trigger] self.keys@[i] == kk by {
            assert(old@.contains_key(kk));
            let i = choose|i: int| 0 <= i < cap && #[trigger] old.keys@[i] == kk;
            assert(i != p);
            assert(self.keys@[i] == kk);
        }
    }

    /// Stores `k -> v`, replacing an earlier value of `k`. Keys 0 and
    /// `u32::MAX` are refused. Before placing the key, a table whose load
    /// (tombstones included) reached 70% doubles its slots, and one with too
    /// many tombstones is rebuilt at its size.
    pub fn insert(&mut self, k: u32, v: u32) -> (r: bool)
        requires
            old(self).wf(),
        ensures
            map_insert_post(*old(self), k, v, r, *final(self)),
    {
        if k == EMPTY_KEY || k == TOMB_KEY {
            return false;
        }
        if self.should_rehash() {
            let cap = self.keys.len();
            let used = self.live + self.tomb;
            let grow = (used as u64) * 10 >= (cap as u64) * 7;
            proof {
                if cap < MAX_MAP_CAP {
                    lemma_pow2_double_within(self.log_cap@);
                }
            }
            let target = if grow && cap < MAX_MAP_CAP {
                cap * 2
            } else {
                cap
            };
            self.rehash_to(target);
            if self.live + 1 >= self.keys.len() {
                return false;
            }
        }
        let ghost cap = self.keys@.len() as int;
        let ghost start = *self;
        assert(start.tomb * 2 < if start.live == 0 {
            1
        } else {
            start.live as int
        });
        let h = self.hash(k);
        let mut idx = h;
        let mut first_tomb: Option<usize> = None;
        let ghost mut t: int = 0;
        let ghost mut tp: int = 0;
        proof {
            vstd::arithmetic::div_mod::lemma_small_mod(h as nat, cap as nat);
        }
        loop
            invariant
                self.wf(),
                *self == start,
                self@ == old(self)@,
                self.live == old(self).live,
                self.capacity() <= 2 * old(self).capacity(),
                self.capacity() != old(self).capacity() ==> (old(self).live_count()
                    + old(self).tombstones()) * 10 >= old(self).capacity() * 7,
                start.tomb * 2 < if start.live == 0 {
                    1
                } else {
                    start.live as int
                },
                storable_key(k),
                self.used() + 1 < cap,
                cap == self.keys@.len(),
                0 <= t < cap,
                idx == self.probe(k, t),
                h == self.home(k),
                h < cap,
                forall|s: int|
                    0 <= s < t ==> self.keys@[#[trigger] self.probe(k, s)] != k && self.keys@[self.probe(k, s)] != EMPTY_KEY,
                first_tomb matches Some(p) ==> 0 <= tp < t && p == self.probe(k, tp)
                    && self.keys@[p as int] == TOMB_KEY,
                first_tomb is None ==> forall|s: int|
                    0 <= s < t ==> self.keys@[#[trigger] self.probe(k, s)] != TOMB_KEY,
            decreases cap - t,
        {
            proof {
                lemma_probe_step(h as int, t, cap);
            }
            let key = self.keys[idx];
            if key == EMPTY_KEY {
                proof {
                    self.lemma_absent(k, t);
                }
                let put = match first_tomb {
                    Some(p) => p,
                    None => idx,
                };
                let ghost d: int = if first_tomb is Some {
                    tp
                } else {
                    t
                };
                let ghost before = *self;
                proof {
                    lemma_probe_step(h as int, d, cap);
                    lemma_count_update(self.keys@, put as int, k, TOMB_KEY);
                }
                if self.keys[put] == TOMB_KEY {
                    self.tomb = self.tomb.saturating_sub(1);
                }
                self.keys.set(put, k);
                self.vals.set(put, v);
                self.live = self.live + 1;
                proof {
                    self.contents@ = self.contents@.insert(k, v);
                    self.lemma_after_place(before, k, v, put as int, d);
                }
                return true;
            }
            if key == TOMB_KEY {
                if first_tomb.is_none() {
                    first_tomb = Some(idx);
                    proof {
                        tp = t;
                    }
                }
            } else if key == k {
                let ghost before = *self;
                self.vals.set(idx, v);
                proof {
                    self.contents@ = self.contents@.insert(k, v);
                    self.lemma_after_set_value(before, idx as int, v);
                }
                return true;
            }
            proof {
                if t + 1 >= cap {
                    self.lemma_probe_finds_empty(k);
                    let s = choose|s: int|
                        0 <= s < cap && self.keys@[#[trigger] self.probe(k, s)] == EMPTY_KEY;
                    if s < t {
                        assert(self.keys@[self.probe(k, s)] != EMPTY_KEY);
                    }
                }
            }
            let next = idx + 1;
            proof {
                self.lemma_mask(next);
            }
            idx = next & self.mask;
            proof {
                t = t + 1;
            }
        }
    }

    /// Rebuilds the table with `new_cap` slots, dropping tombstones.
    fn rehash_to(&mut self, new_cap: usize)
        requires
            old(self).wf(),
            new_cap == old(self).capacity() || new_cap == 2 * old(self).capacity(),
            new_cap <= MAX_MAP_CAP,
        ensures
            final(self).wf(),
            final(self)@ == old(self)@,
            final(self).capacity() == new_cap,
            final(self).tomb == 0,
            final(self).live == old(self).live,
            final(self).seed == old(self).seed,
    {
        proof {
            lemma_pow2_unfold(self.log_cap@ + 1);
        }
        let mut n = U32Map::with_capacity_pow2(new_cap, self.seed);
        let len = self.keys.len();
        let mut i: usize = 0;
        proof {
            assert(self.keys@.subrange(0, 0) =~= Seq::<u32>::empty());
        }
        while i < len
            invariant
                self.wf(),
                *self == *old(self),
                len == self.keys@.len(),
                0 <= i <= len,
                n.wf(),
                n.capacity() == new_cap,
                n.seed == self.seed,
                n.tomb == 0,
                n.live + count_of(self.keys@.subrange(0, i as int), EMPTY_KEY) + count_of(
                    self.keys@.subrange(0, i as int),
                    TOMB_KEY,
                ) == i,
                self.live < len <= new_cap,
                forall|j: int|
                    0 <= j < i && storable_key(#[trigger] self.keys@[j]) ==> n@.contains_key(
                        self.keys@[j],
                    ) && n@[self.keys@[j]] == self.vals@[j],
                forall|kk: u32|
                    #[trigger] n@.contains_key(kk) ==> exists|j: int|
                        0 <= j < i && #[trigger] self.keys@[j] == kk,
            decreases len - i,
        {
            let ghost pre = self.keys@.subrange(0, i as int);
            let ghost pre1 = self.keys@.subrange(0, i + 1);
            proof {
                assert(pre1.drop_last() =~= pre);
            }
            let k = self.keys[i];
            if k != EMPTY_KEY && k != TOMB_KEY {
                let v = self.vals[i];
                proof {
                    if n@.contains_key(k) {
                        let j = choose|j: int| 0 <= j < i && #[trigger] self.keys@[j] == k;
                        assert(self.keys@[j] == self.keys@[i as int]);
                    }
                    lemma_prefix_storable_le(self.keys@, i as int + 1);
                }
                n.insert_no_rehash(k, v);
            }
            i = i + 1;
        }
        proof {
            assert(self.keys@.subrange(0, len as int) =~= self.keys@);
            assert(n@ =~= self@) by {
                assert forall|kk: u32| n@.contains_key(kk) implies self@.contains_key(kk) && n@[kk]
                    == self@[kk] by {
                    let j = choose|j: int| 0 <= j < len && #[trigger] self.keys@[j] == kk;
                    assert(storable_key(kk));
                }
                assert forall|kk: u32| self@.contains_key(kk) implies n@.contains_key(kk) by {
                    let j = choose|j: int| 0 <= j < len && #[trigger] self.keys@[j] == kk;
                }
            }
        }
        *self = n;
    }

    /// Removes a key, giving its value back.
    pub fn remove(&mut self, k: u32) -> (r: Option<u32>)
        requires
            old(self).wf(),
        ensures
            map_remove_post(*old(self), k, r, *final(self)),
    {
        if k == EMPTY_KEY || k == TOMB_KEY {
            proof {
                assert(self@.remove(k) =~= self@);
            }
            return None;
        }
        let ghost cap = self.keys@.len() as int;
        let h = self.hash(k);
        let mut idx = h;
        let ghost mut t: int = 0;
        proof {
            vstd::arithmetic::div_mod::lemma_small_mod(h as nat, cap as nat);
        }
        loop
            invariant
                self.wf(),
                *self == *old(self),
                storable_key(k),
                cap == self.keys@.len(),
                0 <= t < cap,
                idx == self.probe(k, t),
                h == self.home(k),
                h < cap,
                forall|s: int|
                    0 <= s < t ==> self.keys@[#[trigger] self.probe(k, s)] != k && self.keys@[self.probe(k, s)] != EMPTY_KEY,
            decreases cap - t,
        {
            proof {
                lemma_probe_step(h as int, t, cap);
            }
            let key = self.keys[idx];
            if key == EMPTY_KEY {
                proof {
                    self.lemma_absent(k, t);
                    assert(self@.remove(k) =~= self@);
                }
                return None;
            }
            if key == k {
                let ghost before = *self;
                let out = self.vals[idx];
                proof {
                    lemma_count_update(self.keys@, idx as int, TOMB_KEY, TOMB_KEY);
                    lemma_count_update(self.keys@, idx as int, TOMB_KEY, EMPTY_KEY);
                    lemma_count_pair_le(self.keys@.update(idx as int, TOMB_KEY), TOMB_KEY, EMPTY_KEY);
                }
                self.keys.set(idx, TOMB_KEY);
                self.live = self.live.saturating_sub(1);
                self.tomb = self.tomb + 1;
                proof {
                    self.contents@ = self.contents@.remove(k);
                    self.lemma_after_tomb(before, idx as int);
                }
                return Some(out);
            }
            proof {
                if t + 1 >= cap {
                    self.lemma_probe_finds_empty(k);
                    let s = choose|s: int|
                        0 <= s < cap && self.keys@[#[trigger] self.probe(k, s)] == EMPTY_KEY;
                    if s < t {
                        assert(self.keys@[self.probe(k, s)] != EMPTY_KEY);
                    }
                }
            }
            let next = idx + 1;
            proof {
                self.lemma_mask(next);
            }
            idx = next & self.mask;
            proof {
                t = t + 1;
            }
        }
    }

    /// Sets the value of a stored key; does nothing when the key is absent.
    pub fn update_value(&mut self, k: u32, v: u32)
        requires
            old(self).wf(),
        ensures
            final(self).wf(),
            final(self)@ == (if old(self)@.contains_key(k) {
                old(self)@.insert(k, v)
            } else {
                old(self)@
            }),
            final(self).capacity() == old(self).capacity(),
            final(self).live_count() == old(self).live_count(),
    {
        if k == EMPTY_KEY || k == TOMB_KEY {
            return;
        }
        let ghost cap = self.keys@.len() as int;
        let h = self.hash(k);
        let mut idx = h;
        let ghost mut t: int = 0;
        proof {
            vstd::arithmetic::div_mod::lemma_small_mod(h as nat, cap as nat);
        }
        loop
            invariant
                self.wf(),
                *self == *old(self),
                storable_key(k),
                cap == self.keys@.len(),
                0 <= t < cap,
                idx == self.probe(k, t),
                h == self.home(k),
                h < cap,
                forall|s: int|
                    0 <= s < t ==> self.keys@[#[trigger] self.probe(k, s)] != k && self.keys@[self.probe(k, s)] != EMPTY_KEY,
            decreases cap - t,
        {
            proof {
                lemma_probe_step(h as int, t, cap);
            }
            let key = self.keys[idx];
            if key == EMPTY_KEY {
                proof {
                    self.lemma_absent(k, t);
                }
                return;
            }
            if key == k {
                let ghost before = *self;
                self.vals.set(idx, v);
                proof {
                    self.contents@ = self.contents@.insert(k, v);
                    self.lemma_after_set_value(before, idx as int, v);
                }
                return;
            }
            proof {
                if t + 1 >= cap {
                    self.lemma_probe_finds_empty(k);
                    let s = choose|s: int|
                        0 <= s < cap && self.keys@[#[trigger] self.probe(k, s)] == EMPTY_KEY;
                    if s < t {
                        assert(self.keys@[self.probe(k, s)] != EMPTY_KEY);
                    }
                }
            }
            let next = idx + 1;
            proof {
                self.lemma_mask(next);
            }
            idx = next & self.mask;
            proof {
                t = t + 1;
            }
        }
    }
}

/// The occupied (neither empty nor tombstone) slots of a prefix never
/// outnumber those of the whole table.
proof fn lemma_prefix_storable_le(s: Seq<u32>, i: int)
    requires
        0 <= i <= s.len(),
    ensures
        i - count_of(s.subrange(0, i), EMPTY_KEY) - count_of(s.subrange(0, i), TOMB_KEY) <= s.len()
            - count_of(s, EMPTY_KEY) - count_of(s, TOMB_KEY),
    decreases s.len() - i,
{
    if i < s.len() {
        lemma_prefix_storable_le(s, i + 1);
        assert(s.subrange(0, i + 1).drop_last() =~= s.subrange(0, i));
    } else {
        assert(s.subrange(0, i) =~= s);
    }
}

/// Stepping `d` (< cap) slots from `h` and measuring back gives `d`.
proof fn lemma_dist_inverse(h: int, d: int, cap: int)
    requires
        0 <= h < cap,
        0 <= d < cap,
    ensures
        ((h + d) % cap - h + cap) % cap == d,
{
    if h + d < cap {
        vstd::arithmetic::div_mod::lemma_small_mod((h + d) as nat, cap as nat);
        vstd::arithmetic::div_mod::lemma_mod_add_multiples_vanish(d, cap);
        vstd::arithmetic::div_mod::lemma_small_mod(d as nat, cap as nat);
    } else {
        vstd::arithmetic::div_mod::lemma_mod_sub_multiples_vanish(h + d, cap);
        vstd::arithmetic::div_mod::lemma_small_mod((h + d - cap) as nat, cap as nat);
        vstd::arithmetic::div_mod::lemma_small_mod(d as nat, cap as nat);
    }
}

} // verus!
