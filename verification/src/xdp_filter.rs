//! The verdict the XDP program gives a packet by its source address.
use vstd::prelude::*;

verus! {

/// What happens to a packet.
#[derive(Clone, Copy, Debug, PartialEq, Eq, Structural)]
pub enum XdpVerdict {
    Pass,
    Drop,
}

/// A block of a source address: when it started and how long it lasts
/// (0: for ever), in nanoseconds of the kernel clock.
#[derive(Clone, Copy, Debug, PartialEq, Eq, Structural)]
pub struct BlockEntry {
    pub blocked_at_ns: u64,
    pub ttl_ns: u64,
}

/// Time since `from`, on a clock that wraps at 2^64.
pub open spec fn elapsed_ns(now: u64, from: u64) -> int {
    if now >= from {
        now - from
    } else {
        now - from + 0x1_0000_0000_0000_0000
    }
}

/// The verdict for a source: whitelisted sources pass; blocked ones are
/// dropped while the block lasts; a block that ran out lets the packet pass
/// and is to be removed (the second result).
pub fn decide(whitelisted: bool, block: Option<BlockEntry>, now_ns: u64) -> (r: (XdpVerdict, bool))
    ensures
        r == if whitelisted {
            (XdpVerdict::Pass, false)
        } else {
            match block {
                None => (XdpVerdict::Pass, false),
                Some(e) => if e.ttl_ns == 0 || elapsed_ns(now_ns, e.blocked_at_ns) < e.ttl_ns {
                    (XdpVerdict::Drop, false)
                } else {
                    (XdpVerdict::Pass, true)
                },
            }
        },
{
    if whitelisted {
        return (XdpVerdict::Pass, false);
    }
    match block {
        None => (XdpVerdict::Pass, false),
        Some(e) => {
            if e.ttl_ns == 0 {
                return (XdpVerdict::Drop, false);
            }
            let elapsed = now_ns.wrapping_sub(e.blocked_at_ns);
            if elapsed < e.ttl_ns {
                (XdpVerdict::Drop, false)
            } else {
                (XdpVerdict::Pass, true)
            }
        },
    }
}

} // verus!
