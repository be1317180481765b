//! Zero-copy byte queues over pooled receive buffers: a queue or chain holds
//! segments (buffer id, offset, length) and never copies payload, except
//! where a caller asks for a copy.
use vstd::prelude::*;
use std::collections::VecDeque;

verus! {

/// A run of bytes inside a pooled buffer.
#[derive(Clone, Copy, Debug, PartialEq, Eq)]
pub struct BufSeg {
    pub buf_id: u16,
    pub off: u32,
    pub len: u32,
}

/// The buffer pool the queues borrow bytes from.
///
/// Implementations count owners per buffer: `release` drops one owner and
/// `retain` adds one (a split segment is owned twice). `slice` must give
/// exactly `len` bytes.
pub trait BufOps {
    /// How many owners the pool records for a buffer. An implementation
    /// defines this, `byte_at` and `calls` from its state. The bodies here
    /// are constant placeholders, there only so that an implementation
    /// outside `verus!` compiles; no implementation that keeps them can meet
    /// the contracts of `release` and `retain`, which extend `calls`.
    closed spec fn owners(&self, buf_id: u16) -> int {
        0
    }

    /// The byte at a position of a buffer (see `owners`).
    closed spec fn byte_at(&self, buf_id: u16, pos: int) -> u8 {
        0
    }

    /// The `release` and `retain` calls made on the pool so far, oldest
    /// first (see `owners`).
    closed spec fn calls(&self) -> Seq<BufCall> {
        Seq::empty()
    }

    fn slice<'a>(&'a self, buf_id: u16, off: u32, len: u32) -> (r: &'a [u8])
        ensures
            r@ == Seq::new(len as nat, |j: int| self.byte_at(buf_id, off + j)),
    ;

    fn release(&mut self, buf_id: u16)
        ensures
            final(self).calls() == old(self).calls().push(BufCall::Release(buf_id)),
            forall|id: u16|
                #[trigger] final(self).owners(id) == old(self).owners(id) - if id == buf_id {
                    1int
                } else {
                    0int
                },
            forall|id: u16, p: int|
                final(self).owners(id) > 0 ==> #[trigger] final(self).byte_at(id, p) == old(
                    self,
                ).byte_at(id, p),
    ;

    fn retain(&mut self, buf_id: u16)
        ensures
            final(self).calls() == old(self).calls().push(BufCall::Retain(buf_id)),
            forall|id: u16|
                #[trigger] final(self).owners(id) == old(self).owners(id) + if id == buf_id {
                    1int
                } else {
                    0int
                },
            forall|id: u16, p: int| #[trigger] final(self).byte_at(id, p) == old(self).byte_at(id, p),
    ;
}

/// One call on the buffer pool.
pub enum BufCall {
    Retain(u16),
    Release(u16),
}

/// One `release` per segment, in order.
pub open spec fn releases_of(segs: Seq<BufSeg>) -> Seq<BufCall> {
    Seq::new(segs.len(), |i: int| BufCall::Release(segs[i].buf_id))
}

/// How many leading segments lie wholly within the first `n` bytes.
pub open spec fn whole_within(segs: Seq<BufSeg>, n: int) -> nat
    decreases segs.len(),
{
    if segs.len() == 0 || segs[0].len > n {
        0
    } else {
        1 + whole_within(segs.drop_first(), n - segs[0].len)
    }
}

/// One when `cs` is the single `retain` of buffer `id`, zero otherwise.
pub open spec fn retained(cs: Seq<BufCall>, id: u16) -> int {
    if cs.len() == 1 && cs[0] == BufCall::Retain(id) {
        1
    } else {
        0
    }
}

proof fn lemma_whole_within_le(segs: Seq<BufSeg>, n: int)
    ensures
        whole_within(segs, n) <= segs.len(),
    decreases segs.len(),
{
    if segs.len() > 0 && segs[0].len <= n {
        lemma_whole_within_le(segs.drop_first(), n - segs[0].len);
    }
}

/// The `retain` made when the first `n` bytes are cut off: one for the
/// buffer of a segment that straddles the cut, none when the cut falls
/// between segments.
pub open spec fn split_retain(segs: Seq<BufSeg>, n: int) -> Seq<BufCall>
    decreases segs.len(),
{
    if segs.len() == 0 || n <= 0 {
        Seq::empty()
    } else if n < segs[0].len {
        seq![BufCall::Retain(segs[0].buf_id)]
    } else {
        split_retain(segs.drop_first(), n - segs[0].len)
    }
}

/// The bytes a segment refers to, as (buffer, position) pairs.
pub open spec fn seg_refs(s: BufSeg) -> Seq<(u16, int)> {
    Seq::new(s.len as nat, |j: int| (s.buf_id, s.off as int + j))
}

/// The bytes a sequence of segments refers to, in order.
pub open spec fn refs_of(segs: Seq<BufSeg>) -> Seq<(u16, int)>
    decreases segs.len(),
{
    if segs.len() == 0 {
        Seq::empty()
    } else {
        seg_refs(segs[0]) + refs_of(segs.drop_first())
    }
}

/// How many segments refer to a buffer.
pub open spec fn count_id(segs: Seq<BufSeg>, id: u16) -> int
    decreases segs.len(),
{
    if segs.len() == 0 {
        0
    } else {
        (if segs[0].buf_id == id {
            1int
        } else {
            0int
        }) + count_id(segs.drop_first(), id)
    }
}

/// The bytes behind a sequence of references, read from a pool.
pub open spec fn bytes_of<O: BufOps>(ops: O, r: Seq<(u16, int)>) -> Seq<u8> {
    Seq::new(r.len(), |j: int| ops.byte_at(r[j].0, r[j].1))
}

/// A segment is valid when it is not empty and its end fits in 32 bits.
pub open spec fn seg_valid(s: BufSeg) -> bool {
    &&& s.len > 0
    &&& s.off + s.len <= u32::MAX
}

/// The pool holds at least one owner for every segment referring to a buffer.
pub open spec fn covered<O: BufOps>(ops: O, segs: Seq<BufSeg>) -> bool {
    forall|id: u16| #[trigger] ops.owners(id) >= count_id(segs, id)
}

proof fn lemma_refs_push(s: Seq<BufSeg>, a: BufSeg)
    ensures
        refs_of(s.push(a)) == refs_of(s) + seg_refs(a),
        forall|id: u16| #[trigger] count_id(s.push(a), id) == count_id(s, id) + if a.buf_id == id {
            1int
        } else {
            0int
        },
    decreases s.len(),
{
    let t = s.push(a);
    if s.len() == 0 {
        assert(t.drop_first() =~= Seq::<BufSeg>::empty());
        assert(t[0] == a);
        assert(refs_of(t) == seg_refs(a) + refs_of(Seq::<BufSeg>::empty()));
        assert(refs_of(t) =~= refs_of(s) + seg_refs(a));
        assert forall|id: u16| #[trigger] count_id(t, id) == count_id(s, id) + if a.buf_id == id {
            1int
        } else {
            0int
        } by {
            assert(count_id(t, id) == (if a.buf_id == id {
                1int
            } else {
                0int
            }) + count_id(Seq::<BufSeg>::empty(), id));
        }
    } else {
        lemma_refs_push(s.drop_first(), a);
        assert(t.drop_first() =~= s.drop_first().push(a));
        assert(t[0] == s[0]);
        assert(refs_of(t) =~= refs_of(s) + seg_refs(a));
        assert forall|id: u16| #[trigger] count_id(t, id) == count_id(s, id) + if a.buf_id == id {
            1int
        } else {
            0int
        } by {
            assert(count_id(s.drop_first().push(a), id) == count_id(s.drop_first(), id) + if a.buf_id == id {
                1int
            } else {
                0int
            });
        }
    }
}

pub proof fn lemma_count_nonneg(s: Seq<BufSeg>, id: u16)
    ensures
        count_id(s, id) >= 0,
    decreases s.len(),
{
    if s.len() > 0 {
        lemma_count_nonneg(s.drop_first(), id);
    }
}

/// A sequence that is the rest of `whole` after `x` items, split into `a`
/// then `b`: `b` is the rest of `whole` after `x + |a|` items.
proof fn lemma_skip_shift<T>(whole: Seq<T>, x: int, a: Seq<T>, b: Seq<T>)
    requires
        0 <= x <= whole.len(),
        a + b == whole.skip(x),
    ensures
        b == whole.skip(x + a.len()),
{
    let rest = whole.skip(x);
    assert(rest.len() == whole.len() - x);
    assert((a + b).len() == a.len() + b.len());
    let y = x + a.len();
    assert(y <= whole.len());
    let tail = whole.skip(y);
    assert(tail.len() == b.len());
    assert forall|j: int| 0 <= j < b.len() implies b[j] == tail[j] by {
        assert((a + b)[a.len() + j] == b[j]);
        assert(rest[a.len() + j] == whole[x + a.len() + j]);
        assert(tail[j] == whole[y + j]);
    }
    assert(b =~= tail);
}

proof fn lemma_refs_front(a: BufSeg, s: Seq<BufSeg>)
    ensures
        refs_of(seq![a] + s) == seg_refs(a) + refs_of(s),
        forall|id: u16| #[trigger] count_id(seq![a] + s, id) == count_id(s, id) + if a.buf_id == id {
            1int
        } else {
            0int
        },
{
    assert((seq![a] + s).drop_first() =~= s);
}

proof fn lemma_seg_split(seg: BufSeg, take: u32)
    requires
        0 < take < seg.len,
        seg_valid(seg),
    ensures
        seg_refs(seg) == seg_refs(BufSeg { buf_id: seg.buf_id, off: seg.off, len: take })
            + seg_refs(BufSeg { buf_id: seg.buf_id, off: (seg.off + take) as u32, len: (seg.len - take) as u32 }),
{
    assert(seg_refs(seg) =~= seg_refs(BufSeg { buf_id: seg.buf_id, off: seg.off, len: take })
        + seg_refs(BufSeg { buf_id: seg.buf_id, off: (seg.off + take) as u32, len: (seg.len - take) as u32 }));
}

proof fn lemma_count_le_refs(s: Seq<BufSeg>, id: u16)
    requires
        forall|i: int| 0 <= i < s.len() ==> seg_valid(#[trigger] s[i]),
    ensures
        0 <= count_id(s, id) <= s.len(),
        count_id(s, id) <= refs_of(s).len(),
    decreases s.len(),
{
    if s.len() > 0 {
        lemma_count_le_refs(s.drop_first(), id);
    }
}

/// An owned chain of segments (the payload of one DATA frame).
#[derive(Debug, Default)]
pub struct BufChain {
    segs: VecDeque<BufSeg>,
    total_len: u32,
}

/// Well-formedness shared by chains and receive queues: valid segments and a
/// total that counts their bytes.
pub open spec fn segs_wf(segs: Seq<BufSeg>, total: u32) -> bool {
    &&& total == refs_of(segs).len()
    &&& forall|i: int| 0 <= i < segs.len() ==> seg_valid(#[trigger] segs[i])
}

impl BufChain {
    pub closed spec fn segs(&self) -> Seq<BufSeg> {
        self.segs@
    }

    pub closed spec fn wf(&self) -> bool {
        segs_wf(self.segs@, self.total_len)
    }

    /// The bytes the chain refers to.
    pub open spec fn refs(&self) -> Seq<(u16, int)> {
        refs_of(self.segs())
    }

    /// An empty well-formed chain holds no segment (valid segments are
    /// never empty).
    pub proof fn lemma_empty_holds_nothing(&self)
        requires
            self.wf(),
            self.refs().len() == 0,
        ensures
            self.segs().len() == 0,
            forall|id: u16| #[trigger] count_id(self.segs(), id) == 0,
    {
        let segs = self.segs();
        if segs.len() > 0 {
            assert(seg_valid(segs[0]));
            assert(refs_of(segs) == seg_refs(segs[0]) + refs_of(segs.drop_first()));
        }
    }

    pub fn new() -> (r: BufChain)
        ensures
            r.wf(),
            r.segs() == Seq::<BufSeg>::empty(),
    {
        BufChain { segs: VecDeque::new(), total_len: 0 }
    }

    pub fn is_empty(&self) -> (r: bool)
        requires
            self.wf(),
        ensures
            r == (self.refs().len() == 0),
    {
        self.total_len == 0
    }

    pub fn total_len(&self) -> (r: u32)
        requires
            self.wf(),
        ensures
            r == self.refs().len(),
    {
        self.total_len
    }

    /// The segments, front to back.
    pub fn iter(&self) -> (r: Vec<BufSeg>)
        ensures
            r@ == self.segs(),
    {
        let mut out: Vec<BufSeg> = Vec::new();
        let mut i: usize = 0;
        while i < self.segs.len()
            invariant
                0 <= i <= self.segs@.len(),
                out@ == self.segs@.subrange(0, i as int),
            decreases self.segs@.len() - i,
        {
            out.push(self.segs[i]);
            i = i + 1;
            assert(out@ =~= self.segs@.subrange(0, i as int));
        }
        assert(self.segs@.subrange(0, self.segs@.len() as int) =~= self.segs@);
        out
    }

    /// Appends a segment; an empty one is ignored. The chain's byte count
    /// is a `u32` that always equals the bytes held, so a segment must keep
    /// it within `u32::MAX` (a count that saturated would no longer match
    /// the bytes, and every later split by it would be off), and must lie
    /// within the 32-bit offsets of its buffer.
    pub fn push_seg(&mut self, buf_id: u16, off: u32, len: u32)
        requires
            old(self).wf(),
            off + len <= u32::MAX,
            old(self).refs().len() + len <= u32::MAX,
        ensures
            final(self).wf(),
            final(self).segs() == if len == 0 {
                old(self).segs()
            } else {
                old(self).segs().push(BufSeg { buf_id, off, len })
            },
    {
        self.push_back(BufSeg { buf_id, off, len });
    }

    fn push_back(&mut self, seg: BufSeg)
        requires
            old(self).wf(),
            seg.off + seg.len <= u32::MAX,
            old(self).refs().len() + seg.len <= u32::MAX,
        ensures
            final(self).wf(),
            final(self).segs() == if seg.len == 0 {
                old(self).segs()
            } else {
                old(self).segs().push(seg)
            },
    {
        if seg.len == 0 {
            return;
        }
        proof {
            lemma_refs_push(self.segs@, seg);
        }
        self.total_len = self.total_len.saturating_add(seg.len);
        self.segs.push_back(seg);
    }

    /// Gives every segment's buffer back to the pool.
    pub fn release<O: BufOps>(&mut self, ops: &mut O)
        requires
            old(self).wf(),
        ensures
            final(self).wf(),
            final(self).segs() == Seq::<BufSeg>::empty(),
            final(ops).calls() == old(ops).calls() + releases_of(old(self).segs()),
            forall|id: u16|
                #[trigger] final(ops).owners(id) == old(ops).owners(id) - count_id(
                    old(self).segs(),
                    id,
                ),
    {
        let ghost s0 = self.segs@;
        let ghost c0 = ops.calls();
        loop
            invariant_except_break
                ops.calls() + releases_of(self.segs@) == c0 + releases_of(s0),
                forall|id: u16|
                    #[trigger] ops.owners(id) - count_id(self.segs@, id) == old(ops).owners(id)
                        - count_id(old(self).segs(), id),
            ensures
                self.segs@.len() == 0,
                ops.calls() + releases_of(self.segs@) == c0 + releases_of(s0),
                forall|id: u16|
                    #[trigger] ops.owners(id) == old(ops).owners(id) - count_id(old(self).segs(), id),
            decreases self.segs@.len(),
        {
            let ghost before = self.segs@;
            match self.segs.pop_front() {
                Some(seg) => {
                    proof {
                        lemma_refs_front(seg, self.segs@);
                        assert(before =~= seq![seg] + self.segs@);
                    }
                    let ghost cb = ops.calls();
                    ops.release(seg.buf_id);
                    proof {
                        assert(releases_of(before) =~= seq![BufCall::Release(seg.buf_id)] + releases_of(self.segs@));
                        assert(ops.calls() + releases_of(self.segs@) =~= cb + releases_of(before));
                    }
                },
                None => {
                    break ;
                },
            }
        }
        proof {
            assert(releases_of(self.segs@) =~= Seq::<BufCall>::empty());
            assert(ops.calls() =~= ops.calls() + releases_of(self.segs@));
        }
        self.total_len = 0;
    }

    /// Moves the first `min(want, total)` bytes into a new chain. A segment
    /// that straddles the cut is split in two, both halves keeping the same
    /// buffer, which gains an owner.
    pub fn take_prefix<O: BufOps>(&mut self, want: u32, ops: &mut O) -> (out: BufChain)
        requires
            old(self).wf(),
        ensures
            final(self).wf(),
            out.wf(),
            ({
                let k = if want < old(self).refs().len() {
                    want as int
                } else {
                    old(self).refs().len() as int
                };
                &&& out.refs() == old(self).refs().take(k)
                &&& final(self).refs() == old(self).refs().skip(k)
                &&& final(ops).calls() == old(ops).calls() + split_retain(old(self).segs(), k)
                &&& forall|id: u16| #[trigger] final(ops).owners(id) == old(ops).owners(id) + retained(
                    split_retain(old(self).segs(), k),
                    id,
                )
            }),
            forall|id: u16|
                #[trigger] final(ops).owners(id) - count_id(final(self).segs(), id) - count_id(
                    out.segs(),
                    id,
                ) == old(ops).owners(id) - count_id(old(self).segs(), id),
            forall|id: u16, p: int| #[trigger] final(ops).byte_at(id, p) == old(ops).byte_at(id, p),
    {
        if want == 0 || self.total_len == 0 {
            proof {
                assert(split_retain(self.segs@, 0) =~= Seq::<BufCall>::empty());
                if self.total_len == 0 {
                    assert(self.segs@.len() == 0) by {
                        if self.segs@.len() > 0 {
                            lemma_refs_front(self.segs@[0], self.segs@.drop_first());
                            assert(self.segs@ =~= seq![self.segs@[0]] + self.segs@.drop_first());
                            assert(seg_valid(self.segs@[0]));
                        }
                    }
                }
                assert(old(ops).calls() =~= old(ops).calls() + split_retain(old(self).segs(), 0));
                assert(self.refs().take(0) =~= Seq::<(u16, int)>::empty());
                assert(self.refs().skip(0) =~= self.refs());
            }
            return BufChain::new();
        }
        let mut out = BufChain::new();
        let mut remaining = if want < self.total_len {
            want
        } else {
            self.total_len
        };
        let ghost k = remaining as int;
        let ghost s0 = self.segs@;
        let ghost c0 = ops.calls();
        let ghost whole = old(self).refs();
        proof {
            assert(out.refs() =~= Seq::<(u16, int)>::empty());
        }
        while remaining > 0
            invariant
                self.wf(),
                out.wf(),
                ops.calls() + split_retain(self.segs@, remaining as int) == c0 + split_retain(s0, k),
                forall|id: u16| #[trigger] ops.owners(id) + retained(split_retain(self.segs@, remaining as int), id)
                    == old(ops).owners(id) + retained(split_retain(s0, k), id),
                s0 == old(self).segs(),
                c0 == old(ops).calls(),
                out.refs() + self.refs() == whole,
                out.refs().len() + remaining == k,
                remaining <= self.refs().len(),
                0 <= k <= whole.len(),
                whole.len() <= u32::MAX,
                forall|id: u16|
                    #[trigger] ops.owners(id) - count_id(self.segs@, id) - count_id(out.segs@, id)
                        == old(ops).owners(id) - count_id(old(self).segs(), id),
                forall|id: u16, p: int| #[trigger] ops.byte_at(id, p) == old(ops).byte_at(id, p),
            decreases remaining,
        {
            let ghost before = self.segs@;
            let seg = self.segs.pop_front().unwrap();
            proof {
                assert(before =~= seq![seg] + self.segs@);
                lemma_refs_front(seg, self.segs@);
                assert(seg_valid(before[0]));
                assert forall|i: int| 0 <= i < self.segs@.len() implies seg_valid(#[trigger] self.segs@[i]) by {
                    assert(self.segs@[i] == before[i + 1]);
                }
            }
            proof {
                assert(before.drop_first() =~= self.segs@);
            }
            if seg.len <= remaining {
                proof {
                    assert(split_retain(before, remaining as int) == split_retain(self.segs@, remaining - seg.len));
                }
                remaining = remaining - seg.len;
                self.total_len = self.total_len.saturating_sub(seg.len);
                proof {
                    lemma_refs_push(out.segs@, seg);
                    assert(out.refs() + seg_refs(seg) + self.refs() =~= out.refs() + (seg_refs(seg) + self.refs()));
                }
                out.push_back(seg);
                continue;
            }
            let take = remaining;
            let head = BufSeg { buf_id: seg.buf_id, off: seg.off, len: take };
            let tail = BufSeg { buf_id: seg.buf_id, off: seg.off.saturating_add(take), len: seg.len - take };
            proof {
                lemma_seg_split(seg, take);
                lemma_refs_front(tail, self.segs@);
                lemma_refs_push(out.segs@, head);
            }
            let ghost cb = ops.calls();
            proof {
                assert(split_retain(before, take as int) == seq![BufCall::Retain(seg.buf_id)]);
            }
            ops.retain(head.buf_id);
            self.segs.push_front(tail);
            self.total_len = self.total_len.saturating_sub(take);
            out.push_back(head);
            remaining = 0;
            proof {
                assert(split_retain(self.segs@, 0) =~= Seq::<BufCall>::empty());
                assert(ops.calls() + split_retain(self.segs@, 0) =~= cb + split_retain(before, take as int));
                assert(out.refs() + self.refs() =~= whole);
            }
        }
        proof {
            assert(out.refs() =~= whole.take(k));
            assert(self.refs() =~= whole.skip(k));
            assert(ops.calls() =~= ops.calls() + split_retain(self.segs@, 0));
        }
        out
    }
}

/// A chunk of received bytes.
#[derive(Clone, Copy, Debug, PartialEq, Eq)]
pub struct RxChunk {
    pub buf_id: u16,
    pub off: u32,
    pub len: u32,
}

/// Queue of received bytes, read front to back.
#[derive(Debug, Default)]
pub struct RxQueue {
    q: VecDeque<BufSeg>,
    total: u32,
}

impl RxQueue {
    pub closed spec fn segs(&self) -> Seq<BufSeg> {
        self.q@
    }

    pub closed spec fn wf(&self) -> bool {
        segs_wf(self.q@, self.total)
    }

    /// The bytes the queue refers to, front first.
    pub open spec fn refs(&self) -> Seq<(u16, int)> {
        refs_of(self.segs())
    }

    pub fn new() -> (r: RxQueue)
        ensures
            r.wf(),
            r.segs() == Seq::<BufSeg>::empty(),
    {
        RxQueue { q: VecDeque::new(), total: 0 }
    }

    pub fn available(&self) -> (r: u32)
        requires
            self.wf(),
        ensures
            r == self.refs().len(),
    {
        self.total
    }

    /// Gives every queued buffer back to the pool.
    pub fn release_all<O: BufOps>(&mut self, ops: &mut O)
        requires
            old(self).wf(),
        ensures
            final(self).wf(),
            final(self).segs() == Seq::<BufSeg>::empty(),
            final(ops).calls() == old(ops).calls() + releases_of(old(self).segs()),
            forall|id: u16|
                #[trigger] final(ops).owners(id) == old(ops).owners(id) - count_id(
                    old(self).segs(),
                    id,
                ),
    {
        let ghost s0 = self.q@;
        let ghost c0 = ops.calls();
        loop
            invariant_except_break
                ops.calls() + releases_of(self.q@) == c0 + releases_of(s0),
                forall|id: u16|
                    #[trigger] ops.owners(id) - count_id(self.q@, id) == old(ops).owners(id)
                        - count_id(old(self).segs(), id),
            ensures
                self.q@.len() == 0,
                ops.calls() + releases_of(self.q@) == c0 + releases_of(s0),
                forall|id: u16|
                    #[trigger] ops.owners(id) == old(ops).owners(id) - count_id(old(self).segs(), id),
            decreases self.q@.len(),
        {
            let ghost before = self.q@;
            match self.q.pop_front() {
                Some(seg) => {
                    proof {
                        lemma_refs_front(seg, self.q@);
                        assert(before =~= seq![seg] + self.q@);
                    }
                    let ghost cb = ops.calls();
                    ops.release(seg.buf_id);
                    proof {
                        assert(releases_of(before) =~= seq![BufCall::Release(seg.buf_id)] + releases_of(self.q@));
                        assert(ops.calls() + releases_of(self.q@) =~= cb + releases_of(before));
                    }
                },
                None => {
                    break ;
                },
            }
        }
        proof {
            assert(releases_of(self.q@) =~= Seq::<BufCall>::empty());
            assert(ops.calls() =~= ops.calls() + releases_of(self.q@));
        }
        self.total = 0;
    }

    /// Queues received bytes; an empty chunk is ignored. As for
    /// `BufChain::push_seg`, the queued count stays an exact `u32`, so the
    /// chunk must keep it within `u32::MAX` and lie within the 32-bit
    /// offsets of its buffer.
    pub fn push_chunk(&mut self, c: RxChunk)
        requires
            old(self).wf(),
            c.off + c.len <= u32::MAX,
            old(self).refs().len() + c.len <= u32::MAX,
        ensures
            final(self).wf(),
            final(self).segs() == if c.len == 0 {
                old(self).segs()
            } else {
                old(self).segs().push(BufSeg { buf_id: c.buf_id, off: c.off, len: c.len })
            },
    {
        if c.len == 0 {
            return;
        }
        let seg = BufSeg { buf_id: c.buf_id, off: c.off, len: c.len };
        proof {
            lemma_refs_push(self.q@, seg);
        }
        self.q.push_back(seg);
        self.total = self.total.saturating_add(c.len);
    }

    /// Copies the first `n` queued bytes into `out` without consuming them.
    /// Fails, writing nothing, when fewer than `n` bytes are queued or `out`
    /// is shorter than `n`.
    pub fn peek_exact<O: BufOps>(&self, n: usize, ops: &O, out: &mut [u8]) -> (r: bool)
        requires
            self.wf(),
        ensures
            r == (n <= self.refs().len() && n <= old(out)@.len()),
            final(out)@.len() == old(out)@.len(),
            r ==> final(out)@.subrange(0, n as int) == bytes_of(*ops, self.refs().take(n as int)),
            r ==> final(out)@.subrange(n as int, final(out)@.len() as int) == old(out)@.subrange(
                n as int,
                old(out)@.len() as int,
            ),
            !r ==> final(out)@ == old(out)@,
    {
        if (self.total as usize) < n || out.len() < n {
            return false;
        }
        let ghost all = self.refs();
        let mut rem = n;
        let mut dst_off: usize = 0;
        let mut i: usize = 0;
        proof {
            assert(self.q@.subrange(0, 0) =~= Seq::<BufSeg>::empty());
            assert(self.q@.subrange(0, self.q@.len() as int) =~= self.q@);
            assert(out@.subrange(0, 0) =~= bytes_of(*ops, all.take(0)));
        }
        while i < self.q.len() && rem > 0
            invariant
                self.wf(),
                all == self.refs(),
                0 <= i <= self.q@.len(),
                dst_off + rem == n,
                n <= all.len(),
                n <= out@.len(),
                out@.len() == old(out)@.len(),
                refs_of(self.q@.subrange(0, i as int)) + refs_of(self.q@.subrange(i as int, self.q@.len() as int)) == all,
                rem > 0 ==> dst_off == refs_of(self.q@.subrange(0, i as int)).len(),
                out@.subrange(0, dst_off as int) == bytes_of(*ops, all.take(dst_off as int)),
                out@.subrange(n as int, out@.len() as int) == old(out)@.subrange(n as int, old(out)@.len() as int),
            decreases self.q@.len() - i,
        {
            let seg = self.q[i];
            let take: usize = if rem < seg.len as usize {
                rem
            } else {
                seg.len as usize
            };
            let src = ops.slice(seg.buf_id, seg.off, take as u32);
            let ghost pre = refs_of(self.q@.subrange(0, i as int));
            let ghost post = refs_of(self.q@.subrange(i + 1, self.q@.len() as int));
            proof {
                let rest = self.q@.subrange(i as int, self.q@.len() as int);
                assert(rest =~= seq![seg] + self.q@.subrange(i + 1, self.q@.len() as int));
                lemma_refs_front(seg, self.q@.subrange(i + 1, self.q@.len() as int));
                assert(self.q@.subrange(0, i + 1) =~= self.q@.subrange(0, i as int).push(seg));
                lemma_refs_push(self.q@.subrange(0, i as int), seg);
                assert(all == pre + seg_refs(seg) + post);
            }
            let ghost out0 = out@;
            let mut j: usize = 0;
            while j < take
                invariant
                    0 <= j <= take,
                    take <= rem,
                    dst_off + rem == n,
                    n <= out@.len(),
                    out@.len() == old(out)@.len(),
                    out0.len() == out@.len(),
                    src@.len() == take,
                    forall|m: int| 0 <= m < dst_off ==> out@[m] == out0[m],
                    forall|m: int| 0 <= m < j ==> out@[dst_off + m] == src@[m],
                    forall|m: int| n <= m < out@.len() ==> out@[m] == out0[m],
                decreases take - j,
            {
                out[dst_off + j] = src[j];
                j = j + 1;
            }
            proof {
                assert(pre.len() == dst_off);
                assert forall|m: int| 0 <= m < dst_off + take implies out@[m] == bytes_of(*ops, all.take((dst_off + take) as int))[m] by {
                    assert(bytes_of(*ops, all.take((dst_off + take) as int))[m] == ops.byte_at(all[m].0, all[m].1));
                    if m < dst_off {
                        assert(out0.subrange(0, dst_off as int)[m] == bytes_of(*ops, all.take(dst_off as int))[m]);
                        assert(bytes_of(*ops, all.take(dst_off as int))[m] == ops.byte_at(all[m].0, all[m].1));
                    } else {
                        let jj = m - dst_off;
                        assert(out@[m] == src@[jj]);
                        assert(src@[jj] == ops.byte_at(seg.buf_id, seg.off + jj));
                        assert((pre + seg_refs(seg) + post)[m] == seg_refs(seg)[jj]);
                        assert(all[m] == seg_refs(seg)[jj]);
                    }
                }
                assert(out@.subrange(0, dst_off + take) =~= bytes_of(*ops, all.take((dst_off + take) as int)));
                assert(out@.subrange(n as int, out@.len() as int) =~= old(out)@.subrange(n as int, old(out)@.len() as int)) by {
                    assert(out0.subrange(n as int, out0.len() as int) == old(out)@.subrange(n as int, old(out)@.len() as int));
                }
                assert(refs_of(self.q@.subrange(0, i + 1)) + refs_of(self.q@.subrange(i + 1, self.q@.len() as int)) =~= all);
            }
            dst_off = dst_off + take;
            rem = rem - take;
            i = i + 1;
        }
        proof {
            if rem > 0 {
                assert(self.q@.subrange(0, i as int) =~= self.q@);
            }
        }
        rem == 0
    }

    /// Reads and consumes one byte.
    pub fn read_u8<O: BufOps>(&mut self, ops: &mut O) -> (r: Result<u8, ()>)
        requires
            old(self).wf(),
        ensures
            final(self).wf(),
            match r {
                Ok(b) => {
                    &&& old(self).refs().len() >= 1
                    &&& b == old(ops).byte_at(old(self).refs()[0].0, old(self).refs()[0].1)
                    &&& final(self).refs() == old(self).refs().skip(1)
                    &&& final(ops).calls() == old(ops).calls() + releases_of(
                        old(self).segs().take(whole_within(old(self).segs(), 1) as int),
                    )
                    &&& forall|id: u16| #[trigger] final(ops).owners(id) == old(ops).owners(id) - count_id(
                        old(self).segs().take(whole_within(old(self).segs(), 1) as int),
                        id,
                    )
                    &&& forall|id: u16|
                        #[trigger] final(ops).owners(id) - count_id(final(self).segs(), id) == old(
                            ops,
                        ).owners(id) - count_id(old(self).segs(), id)
                },
                Err(_) => old(self).refs().len() == 0 && *final(self) == *old(self) && *final(ops)
                    == *old(ops),
            },
            forall|id: u16, p: int|
                final(ops).owners(id) > 0 ==> #[trigger] final(ops).byte_at(id, p) == old(ops).byte_at(id, p),
    {
        let mut b = [0u8; 1];
        if !self.peek_exact(1, &*ops, &mut b) {
            return Err(());
        }
        proof {
            assert(b@.subrange(0, 1)[0] == b@[0]);
        }
        let out = b[0];
        match self.consume(1, ops) {
            Ok(()) => Ok(out),
            Err(()) => Err(()),
        }
    }

    /// Drops the first `n` queued bytes, giving back buffers emptied whole.
    pub fn consume<O: BufOps>(&mut self, n: u32, ops: &mut O) -> (r: Result<(), ()>)
        requires
            old(self).wf(),
        ensures
            final(self).wf(),
            r is Ok <==> n <= old(self).refs().len(),
            r is Ok ==> final(self).refs() == old(self).refs().skip(n as int),
            r is Ok ==> final(ops).calls() == old(ops).calls() + releases_of(
                old(self).segs().take(whole_within(old(self).segs(), n as int) as int),
            ),
            r is Ok ==> forall|id: u16| #[trigger] final(ops).owners(id) == old(ops).owners(id) - count_id(
                old(self).segs().take(whole_within(old(self).segs(), n as int) as int),
                id,
            ),
            r is Err ==> *final(self) == *old(self) && *final(ops) == *old(ops),
            forall|id: u16|
                #[trigger] final(ops).owners(id) - count_id(final(self).segs(), id) == old(ops).owners(
                    id,
                ) - count_id(old(self).segs(), id),
            forall|id: u16, p: int|
                final(ops).owners(id) > 0 ==> #[trigger] final(ops).byte_at(id, p) == old(ops).byte_at(id, p),
    {
        if self.total < n {
            return Err(());
        }
        proof {
            assert(self.q@.take(whole_within(self.q@, 0) as int) =~= Seq::<BufSeg>::empty()) by {
                if self.q@.len() > 0 {
                    assert(seg_valid(self.q@[0]));
                }
            }
        }
        let mut n = n;
        let ghost s0 = self.q@;
        let ghost c0 = ops.calls();
        let ghost whole = old(self).refs();
        let ghost k = n as int;
        proof {
            assert(whole.skip(0) =~= whole);
        }
        while n > 0
            invariant
                self.wf(),
                s0 == old(self).segs(),
                c0 == old(ops).calls(),
                ops.calls() + releases_of(self.q@.take(whole_within(self.q@, n as int) as int)) == c0 + releases_of(s0.take(whole_within(s0, k) as int)),
                forall|id: u16| #[trigger] ops.owners(id) - count_id(self.q@.take(whole_within(self.q@, n as int) as int), id)
                    == old(ops).owners(id) - count_id(s0.take(whole_within(s0, k) as int), id),
                n <= self.refs().len(),
                0 <= k - n,
                self.refs() == whole.skip(k - n),
                0 <= k <= whole.len(),
                forall|id: u16|
                    #[trigger] ops.owners(id) - count_id(self.q@, id) == old(ops).owners(id)
                        - count_id(old(self).segs(), id),
                forall|id: u16, p: int|
                    ops.owners(id) > 0 ==> #[trigger] ops.byte_at(id, p) == old(ops).byte_at(id, p),
            decreases n,
        {
            let ghost prev = self.refs();
            let ghost before = self.q@;
            let ghost n0 = n as int;
            let ghost cb = ops.calls();
            let seg = self.q.pop_front().unwrap();
            proof {
                assert(before =~= seq![seg] + self.q@);
                lemma_refs_front(seg, self.q@);
                assert(seg_valid(before[0]));
                assert forall|i: int| 0 <= i < self.q@.len() implies seg_valid(#[trigger] self.q@[i]) by {
                    assert(self.q@[i] == before[i + 1]);
                }
            }
            if seg.len <= n {
                n = n - seg.len;
                self.total = self.total - seg.len;
                ops.release(seg.buf_id);
                proof {
                    let m: int = whole_within(self.q@, n as int) as int;
                    assert(before.drop_first() =~= self.q@);
                    lemma_whole_within_le(self.q@, n as int);
                    assert(releases_of(before.take(1 + m)) =~= seq![BufCall::Release(seg.buf_id)] + releases_of(self.q@.take(m)));
                    assert(ops.calls() + releases_of(self.q@.take(m)) =~= cb + releases_of(before.take(1 + m)));
                    assert(before.take(1 + m).drop_first() =~= self.q@.take(m));
                    lemma_skip_shift(whole, k - n0, seg_refs(seg), self.refs());
                }
            } else {
                let tail = BufSeg { buf_id: seg.buf_id, off: seg.off.saturating_add(n), len: seg.len - n };
                proof {
                    let head = BufSeg { buf_id: seg.buf_id, off: seg.off, len: n };
                    lemma_seg_split(seg, n);
                    lemma_refs_front(tail, self.q@);
                    assert(prev =~= seg_refs(head) + (seg_refs(tail) + refs_of(self.q@)));
                    lemma_skip_shift(whole, k - n0, seg_refs(head), seg_refs(tail) + refs_of(self.q@));
                }
                self.total = self.total - n;
                n = 0;
                self.q.push_front(tail);
                proof {
                    assert(releases_of(before.take(0)) =~= Seq::<BufCall>::empty());
                    assert(releases_of(self.q@.take(0)) =~= Seq::<BufCall>::empty());
                    assert(seg_valid(tail));
                }
            }
        }
        proof {
            if self.q@.len() > 0 {
                assert(seg_valid(self.q@[0]));
            }
            assert(releases_of(self.q@.take(0)) =~= Seq::<BufCall>::empty());
            assert(ops.calls() =~= ops.calls() + releases_of(self.q@.take(0)));
        }
        Ok(())
    }

    /// Copies the first `n` queued bytes to the end of `out` and consumes
    /// them, giving back buffers emptied whole.
    pub fn copy_into_vec<O: BufOps>(&mut self, n: u32, ops: &mut O, out: &mut Vec<u8>) -> (r: Result<(), ()>)
        requires
            old(self).wf(),
            covered(*old(ops), old(self).segs()),
        ensures
            final(self).wf(),
            r is Ok <==> n <= old(self).refs().len(),
            r is Ok ==> final(self).refs() == old(self).refs().skip(n as int),
            r is Ok ==> final(ops).calls() == old(ops).calls() + releases_of(
                old(self).segs().take(whole_within(old(self).segs(), n as int) as int),
            ),
            r is Ok ==> forall|id: u16| #[trigger] final(ops).owners(id) == old(ops).owners(id) - count_id(
                old(self).segs().take(whole_within(old(self).segs(), n as int) as int),
                id,
            ),
            r is Ok ==> final(out)@ == old(out)@ + bytes_of(*old(ops), old(self).refs().take(n as int)),
            r is Err ==> *final(self) == *old(self) && *final(ops) == *old(ops) && final(out)@ == old(out)@,
            forall|id: u16|
                #[trigger] final(ops).owners(id) - count_id(final(self).segs(), id) == old(ops).owners(
                    id,
                ) - count_id(old(self).segs(), id),
    {
        if self.total < n {
            return Err(());
        }
        out.reserve(n as usize);
        let mut n = n;
        let ghost s0 = self.q@;
        let ghost c0 = ops.calls();
        let ghost whole = old(self).refs();
        let ghost k = n as int;
        let ghost data = bytes_of(*old(ops), whole);
        proof {
            assert(whole.skip(0) =~= whole);
            assert(out@ =~= old(out)@ + data.subrange(0, 0));
        }
        while n > 0
            invariant
                self.wf(),
                s0 == old(self).segs(),
                c0 == old(ops).calls(),
                ops.calls() + releases_of(self.q@.take(whole_within(self.q@, n as int) as int)) == c0 + releases_of(s0.take(whole_within(s0, k) as int)),
                forall|id: u16| #[trigger] ops.owners(id) - count_id(self.q@.take(whole_within(self.q@, n as int) as int), id)
                    == old(ops).owners(id) - count_id(s0.take(whole_within(s0, k) as int), id),
                n <= self.refs().len(),
                0 <= k - n,
                self.refs() == whole.skip(k - n),
                0 <= k <= whole.len(),
                data == bytes_of(*old(ops), whole),
                out@ == old(out)@ + data.subrange(0, k - n),
                forall|id: u16|
                    #[trigger] ops.owners(id) - count_id(self.q@, id) == old(ops).owners(id)
                        - count_id(old(self).segs(), id),
                covered(*ops, self.q@),
                forall|j: int| k - n <= j < whole.len() ==> #[trigger] ops.byte_at(whole[j].0, whole[j].1) == data[j],
            decreases n,
        {
            let ghost prev = self.refs();
            let ghost before = self.q@;
            let ghost n0 = n as int;
            let ghost cb = ops.calls();
            let seg = self.q.pop_front().unwrap();
            proof {
                assert(before =~= seq![seg] + self.q@);
                lemma_refs_front(seg, self.q@);
                assert(seg_valid(before[0]));
                assert forall|i: int| 0 <= i < self.q@.len() implies seg_valid(#[trigger] self.q@[i]) by {
                    assert(self.q@[i] == before[i + 1]);
                }
            }
            let take = if n < seg.len {
                n
            } else {
                seg.len
            };
            let src = ops.slice(seg.buf_id, seg.off, take);
            let ghost done = k - n0;
            proof {
                assert forall|j: int| 0 <= j < take implies src@[j] == data[done + j] by {
                    assert(prev[j] == seg_refs(seg)[j]);
                    assert(whole[done + j] == prev[j]);
                }
                assert(src@ =~= data.subrange(done, done + take));
            }
            out.extend_from_slice(src);
            proof {
                assert(out@ =~= old(out)@ + data.subrange(0, done + take));
            }
            if take == seg.len {
                self.total = self.total - take;
                n = n - take;
                ops.release(seg.buf_id);
                proof {
                    let m: int = whole_within(self.q@, n as int) as int;
                    assert(before.drop_first() =~= self.q@);
                    lemma_whole_within_le(self.q@, n as int);
                    assert(releases_of(before.take(1 + m)) =~= seq![BufCall::Release(seg.buf_id)] + releases_of(self.q@.take(m)));
                    assert(ops.calls() + releases_of(self.q@.take(m)) =~= cb + releases_of(before.take(1 + m)));
                    assert(before.take(1 + m).drop_first() =~= self.q@.take(m));
                    lemma_skip_shift(whole, done, seg_refs(seg), self.refs());
                    assert forall|j: int| k - n <= j < whole.len() implies #[trigger] ops.byte_at(whole[j].0, whole[j].1) == data[j] by {
                        let jj = j - (k - n);
                        assert(whole[j] == self.refs()[jj]);
                        lemma_refs_in_segs(self.q@, jj);
                    }
                }
            } else {
                let tail = BufSeg { buf_id: seg.buf_id, off: seg.off.saturating_add(take), len: seg.len - take };
                proof {
                    let head = BufSeg { buf_id: seg.buf_id, off: seg.off, len: take };
                    lemma_seg_split(seg, take);
                    lemma_refs_front(tail, self.q@);
                    assert(prev =~= seg_refs(head) + (seg_refs(tail) + refs_of(self.q@)));
                    lemma_skip_shift(whole, done, seg_refs(head), seg_refs(tail) + refs_of(self.q@));
                }
                self.total = self.total - take;
                n = n - take;
                self.q.push_front(tail);
                proof {
                    assert(releases_of(before.take(0)) =~= Seq::<BufCall>::empty());
                    assert(releases_of(self.q@.take(0)) =~= Seq::<BufCall>::empty());
                    assert(seg_valid(tail));
                }
            }
        }
        proof {
            assert(data.subrange(0, k) =~= bytes_of(*old(ops), whole.take(k)));
        }
        Ok(())
    }

    /// Moves the first `n` queued bytes into a chain without copying. A
    /// segment that straddles the cut is split, its buffer gaining an owner.
    pub fn take_chain<O: BufOps>(&mut self, n: u32, ops: &mut O) -> (r: Result<BufChain, ()>)
        requires
            old(self).wf(),
        ensures
            final(self).wf(),
            r is Ok <==> n <= old(self).refs().len(),
            r is Err ==> *final(self) == *old(self) && *final(ops) == *old(ops),
            r matches Ok(c) ==> {
                &&& c.wf()
                &&& c.refs() == old(self).refs().take(n as int)
                &&& final(self).refs() == old(self).refs().skip(n as int)
                &&& final(ops).calls() == old(ops).calls() + split_retain(old(self).segs(), n as int)
                &&& forall|id: u16| #[trigger] final(ops).owners(id) == old(ops).owners(id) + retained(
                    split_retain(old(self).segs(), n as int),
                    id,
                )
                &&& forall|id: u16|
                    #[trigger] final(ops).owners(id) - count_id(final(self).segs(), id) - count_id(
                        c.segs(),
                        id,
                    ) == old(ops).owners(id) - count_id(old(self).segs(), id)
            },
            forall|id: u16, p: int| #[trigger] final(ops).byte_at(id, p) == old(ops).byte_at(id, p),
    {
        if self.total < n {
            return Err(());
        }
        let mut n = n;
        let mut out = BufChain::new();
        let ghost s0 = self.q@;
        let ghost c0 = ops.calls();
        let ghost whole = old(self).refs();
        let ghost k = n as int;
        proof {
            assert(out.refs() =~= Seq::<(u16, int)>::empty());
        }
        while n > 0
            invariant
                self.wf(),
                out.wf(),
                ops.calls() + split_retain(self.q@, n as int) == c0 + split_retain(s0, k),
                forall|id: u16| #[trigger] ops.owners(id) + retained(split_retain(self.q@, n as int), id)
                    == old(ops).owners(id) + retained(split_retain(s0, k), id),
                s0 == old(self).segs(),
                c0 == old(ops).calls(),
                out.refs() + self.refs() == whole,
                out.refs().len() + n == k,
                n <= self.refs().len(),
                0 <= k <= whole.len(),
                whole.len() <= u32::MAX,
                forall|id: u16|
                    #[trigger] ops.owners(id) - count_id(self.q@, id) - count_id(out.segs(), id)
                        == old(ops).owners(id) - count_id(old(self).segs(), id),
                forall|id: u16, p: int| #[trigger] ops.byte_at(id, p) == old(ops).byte_at(id, p),
            decreases n,
        {
            let ghost before = self.q@;
            let seg = self.q.pop_front().unwrap();
            proof {
                assert(before =~= seq![seg] + self.q@);
                lemma_refs_front(seg, self.q@);
                assert(seg_valid(before[0]));
                assert forall|i: int| 0 <= i < self.q@.len() implies seg_valid(#[trigger] self.q@[i]) by {
                    assert(self.q@[i] == before[i + 1]);
                }
            }
            proof {
                assert(before.drop_first() =~= self.q@);
            }
            if seg.len <= n {
                proof {
                    assert(split_retain(before, n as int) == split_retain(self.q@, n - seg.len));
                }
                n = n - seg.len;
                self.total = self.total - seg.len;
                proof {
                    lemma_refs_push(out.segs(), seg);
                    assert(out.refs() + seg_refs(seg) + self.refs() =~= out.refs() + (seg_refs(seg) + self.refs()));
                }
                out.push_back(seg);
                continue;
            }
            let take = n;
            let head = BufSeg { buf_id: seg.buf_id, off: seg.off, len: take };
            let tail = BufSeg { buf_id: seg.buf_id, off: seg.off.saturating_add(take), len: seg.len - take };
            proof {
                lemma_seg_split(seg, take);
                lemma_refs_front(tail, self.q@);
                lemma_refs_push(out.segs(), head);
            }
            let ghost cb = ops.calls();
            proof {
                assert(split_retain(before, take as int) == seq![BufCall::Retain(seg.buf_id)]);
            }
            ops.retain(head.buf_id);
            self.q.push_front(tail);
            self.total = self.total - take;
            out.push_back(head);
            n = 0;
            proof {
                assert(split_retain(self.q@, 0) =~= Seq::<BufCall>::empty());
                assert(ops.calls() + split_retain(self.q@, 0) =~= cb + split_retain(before, take as int));
                assert(out.refs() + self.refs() =~= whole);
            }
        }
        proof {
            assert(out.refs() =~= whole.take(k));
            assert(self.refs() =~= whole.skip(k));
            assert(ops.calls() =~= ops.calls() + split_retain(self.q@, 0));
        }
        Ok(out)
    }
}

/// Every byte reference of a segment sequence belongs to one of its
/// segments, so the sequence counts its buffer at least once.
pub proof fn lemma_refs_in_segs(s: Seq<BufSeg>, j: int)
    requires
        0 <= j < refs_of(s).len(),
    ensures
        count_id(s, refs_of(s)[j].0) >= 1,
    decreases s.len(),
{
    if s.len() > 0 {
        let a = s[0];
        let rest = s.drop_first();
        assert(refs_of(s) == seg_refs(a) + refs_of(rest));
        if j < seg_refs(a).len() {
            assert(refs_of(s)[j] == seg_refs(a)[j]);
            lemma_count_nonneg(rest, a.buf_id);
        } else {
            assert(refs_of(s)[j] == refs_of(rest)[j - seg_refs(a).len()]);
            lemma_refs_in_segs(rest, j - seg_refs(a).len());
        }
    }
}

} // verus!
