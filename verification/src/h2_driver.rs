//! Writing queued frames out: frames are written whole, front to back, and
//! a DATA frame's payload goes back to the buffer pool once written, its
//! credit handed on for the WINDOW_UPDATE that follows.
use vstd::prelude::*;
use std::collections::VecDeque;

use crate::h2_buf::BufOps;
use crate::h2_down::{item_count, items_count, tx_item_wf, Credit, TxItem};

verus! {

/// Where frames are written (a socket or TLS writer, or memory).
pub trait FrameWriter {
    fn write_all(&mut self, bytes: &[u8]) -> Result<(), std::io::Error>;
}

impl FrameWriter for Vec<u8> {
    /// Appends the bytes; writing to memory always succeeds.
    fn write_all(&mut self, bytes: &[u8]) -> (r: Result<(), std::io::Error>)
        ensures
            r is Ok,
            final(self)@ == old(self)@ + bytes@,
    {
        let mut i: usize = 0;
        while i < bytes.len()
            invariant
                i <= bytes.len(),
                self@ == old(self)@ + bytes@.take(i as int),
            decreases bytes.len() - i,
        {
            self.push(bytes[i]);
            i = i + 1;
            proof {
                assert(self@ =~= old(self)@ + bytes@.take(i as int));
            }
        }
        proof {
            assert(bytes@.take(i as int) =~= bytes@);
        }
        Ok(())
    }
}

/// The bytes an item takes on the wire.
pub open spec fn wire_len(item: TxItem) -> int {
    match item {
        TxItem::Raw { bytes } => bytes@.len() as int,
        TxItem::FrameBytes { payload, .. } => 9 + payload@.len() as int,
        TxItem::FrameData { payload, .. } => 9 + payload.refs().len() as int,
    }
}

pub open spec fn wire_total(s: Seq<TxItem>) -> int
    decreases s.len(),
{
    if s.len() == 0 {
        0
    } else {
        wire_total(s.drop_last()) + wire_len(s.last())
    }
}

/// The credits the DATA frames among `s` carry, in order.
pub open spec fn credits_of(s: Seq<TxItem>) -> Seq<Credit>
    decreases s.len(),
{
    if s.len() == 0 {
        Seq::empty()
    } else {
        credits_of(s.drop_last()) + match s.last() {
            TxItem::FrameData { credit: Some(c), .. } => seq![c],
            _ => Seq::empty(),
        }
    }
}

/// The first `k` items of `before` were written and taken off the queue.
pub open spec fn drained_first(before: Seq<TxItem>, after: Seq<TxItem>, k: int) -> bool {
    0 <= k <= before.len() && after == before.skip(k)
}

pub open spec fn sat_usize(x: int) -> int {
    if x > usize::MAX {
        usize::MAX as int
    } else {
        x
    }
}

fn header_vec(h: &[u8; 9]) -> (r: Vec<u8>)
    ensures
        r@ == h@,
{
    let r = vec![h[0], h[1], h[2], h[3], h[4], h[5], h[6], h[7], h[8]];
    assert(r@ =~= h@);
    r
}

/// Writes queued items to `w`, front to back, until the queue is empty or
/// the next item would take the bytes written past `max_plain_bytes` (an
/// item is always written when nothing has been yet).  Written DATA payloads
/// go back to the pool and their credits are appended to `credits`.  A write
/// error stops at once, leaving the item being written at the front.
pub fn drain_tx_to_writer<O: BufOps, W: FrameWriter>(
    tx: &mut VecDeque<TxItem>,
    ops: &mut O,
    w: &mut W,
    credits: &mut Vec<Credit>,
    max_plain_bytes: usize,
) -> (r: Result<usize, std::io::Error>)
    requires
        forall|i: int| 0 <= i < old(tx)@.len() ==> tx_item_wf(#[trigger] old(tx)@[i]),
    ensures
        exists|k: int| {
            &&& #[trigger] drained_first(old(tx)@, final(tx)@, k)
            &&& final(credits)@ == old(credits)@ + credits_of(old(tx)@.take(k))
            &&& forall|id: u16| #[trigger] final(ops).owners(id) == old(ops).owners(id) - items_count(old(tx)@.take(k), id)
            &&& r matches Ok(n) ==> {
                &&& n == sat_usize(wire_total(old(tx)@.take(k)))
                &&& k < old(tx)@.len() ==> n > 0
            }
        },
        forall|i: int| 0 <= i < final(tx)@.len() ==> tx_item_wf(#[trigger] final(tx)@[i]),
{
    let ghost t0 = tx@;
    let ghost c0 = credits@;
    let n0 = tx.len();
    let mut wrote: usize = 0;
    let mut k: usize = 0;
    proof {
        assert(t0.skip(0) =~= t0);
        assert(t0.take(0) =~= Seq::<TxItem>::empty());
        assert(c0 + credits_of(Seq::<TxItem>::empty()) =~= c0);
    }
    loop
        invariant_except_break
            t0 == old(tx)@,
            c0 == old(credits)@,
            n0 == t0.len(),
            k <= t0.len(),
            tx@ == t0.skip(k as int),
            credits@ == c0 + credits_of(t0.take(k as int)),
            forall|id: u16| #[trigger] ops.owners(id) == old(ops).owners(id) - items_count(t0.take(k as int), id),
            wrote == sat_usize(wire_total(t0.take(k as int))),
            forall|i: int| 0 <= i < t0.len() ==> tx_item_wf(#[trigger] t0[i]),
        ensures
            k <= t0.len(),
            tx@ == t0.skip(k as int),
            credits@ == c0 + credits_of(t0.take(k as int)),
            forall|id: u16| #[trigger] ops.owners(id) == old(ops).owners(id) - items_count(t0.take(k as int), id),
            wrote == sat_usize(wire_total(t0.take(k as int))),
            forall|i: int| 0 <= i < t0.len() ==> tx_item_wf(#[trigger] t0[i]),
            k < t0.len() ==> wrote > 0,
        decreases t0.len() - k,
    {
        let ghost before_tx = tx@;
        let item = match tx.pop_front() {
            Some(it) => it,
            None => {
                break;
            },
        };
        proof {
            assert(k < t0.len());
            assert(item == t0[k as int]);
            assert(tx@ =~= t0.skip(k as int + 1));
            assert(t0.take(k as int + 1).drop_last() =~= t0.take(k as int));
            assert(t0.take(k as int + 1).last() == item);
            assert(tx_item_wf(item));
        }
        let item_len: usize = match &item {
            TxItem::Raw { bytes } => bytes.len(),
            TxItem::FrameBytes { payload, .. } => payload.len().saturating_add(9),
            TxItem::FrameData { payload, .. } => (payload.total_len() as usize).saturating_add(9),
        };
        if wrote > 0 && wrote.saturating_add(item_len) > max_plain_bytes {
            tx.push_front(item);
            proof {
                assert(tx@ =~= t0.skip(k as int));
            }
            break;
        }
        match item {
            TxItem::Raw { bytes } => {
                match w.write_all(bytes.as_slice()) {
                    Ok(()) => {},
                    Err(e) => {
                        tx.push_front(TxItem::Raw { bytes });
                        proof {
                            assert(tx@ =~= t0.skip(k as int));
                            assert(drained_first(t0, tx@, k as int));
                        }
                        return Err(e);
                    },
                }
                wrote = wrote.saturating_add(bytes.len());
            },
            TxItem::FrameBytes { header, payload } => {
                let hv = header_vec(&header);
                match w.write_all(hv.as_slice()) {
                    Ok(()) => {},
                    Err(e) => {
                        tx.push_front(TxItem::FrameBytes { header, payload });
                        proof {
                            assert(tx@ =~= t0.skip(k as int));
                            assert(drained_first(t0, tx@, k as int));
                        }
                        return Err(e);
                    },
                }
                match w.write_all(payload.as_slice()) {
                    Ok(()) => {},
                    Err(e) => {
                        tx.push_front(TxItem::FrameBytes { header, payload });
                        proof {
                            assert(tx@ =~= t0.skip(k as int));
                            assert(drained_first(t0, tx@, k as int));
                        }
                        return Err(e);
                    },
                }
                wrote = wrote.saturating_add(payload.len().saturating_add(9));
            },
            TxItem::FrameData { header, payload, credit } => {
                let hv = header_vec(&header);
                match w.write_all(hv.as_slice()) {
                    Ok(()) => {},
                    Err(e) => {
                        tx.push_front(TxItem::FrameData { header, payload, credit });
                        proof {
                            assert(tx@ =~= t0.skip(k as int));
                            assert(drained_first(t0, tx@, k as int));
                        }
                        return Err(e);
                    },
                }
                let segs = payload.iter();
                let mut j: usize = 0;
                let mut failed: Option<std::io::Error> = None;
                while j < segs.len()
                    invariant
                        j <= segs.len(),
                    decreases segs.len() - j,
                {
                    let seg = segs[j];
                    let sl = ops.slice(seg.buf_id, seg.off, seg.len);
                    match w.write_all(sl) {
                        Ok(()) => {},
                        Err(e) => {
                            failed = Some(e);
                            break;
                        },
                    }
                    j = j + 1;
                }
                match failed {
                    Some(e) => {
                        tx.push_front(TxItem::FrameData { header, payload, credit });
                        proof {
                            assert(tx@ =~= t0.skip(k as int));
                            assert(drained_first(t0, tx@, k as int));
                        }
                        return Err(e);
                    },
                    None => {},
                }
                let total = payload.total_len() as usize;
                let mut payload = payload;
                payload.release(ops);
                match credit {
                    Some(c) => credits.push(c),
                    None => {},
                }
                wrote = wrote.saturating_add(total.saturating_add(9));
            },
        }
        proof {
            let tk = t0.take(k as int + 1);
            assert(wire_total(tk) == wire_total(t0.take(k as int)) + wire_len(item));
            assert(credits_of(tk) == credits_of(t0.take(k as int)) + match item {
                TxItem::FrameData { credit: Some(c), .. } => seq![c],
                _ => Seq::<Credit>::empty(),
            });
            assert forall|id: u16| #[trigger] items_count(tk, id) == items_count(t0.take(k as int), id) + item_count(item, id) by {
                assert(tk.drop_last() == t0.take(k as int));
            }
        }
        k = k + 1;
    }
    proof {
        assert(drained_first(t0, tx@, k as int));
    }
    Ok(wrote)
}

} // verus!
