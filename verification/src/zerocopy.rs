use vstd::prelude::*;

verus! {

/// Payload size from which zero-copy sending pays off, by default.
pub const DEFAULT_ZEROCOPY_THRESHOLD: usize = 4096;

/// Chooses between plain and zero-copy sends by payload size.
#[derive(Clone, Copy, Debug)]
pub struct ZeroCopyResponder {
    threshold: usize,
}

impl ZeroCopyResponder {
    pub closed spec fn limit(&self) -> usize {
        self.threshold
    }

    /// A responder with the given threshold (at least 1).
    pub fn new(threshold: usize) -> (r: Self)
        ensures
            r.limit() == (if threshold == 0 { 1 } else { threshold }),
    {
        ZeroCopyResponder { threshold: if threshold == 0 { 1 } else { threshold } }
    }

    pub fn threshold(&self) -> (r: usize)
        ensures
            r == self.limit(),
    {
        self.threshold
    }

    /// Zero-copy only for payloads above the threshold.
    pub fn should_zerocopy(&self, body_len: usize) -> (r: bool)
        ensures
            r == (body_len > self.limit()),
    {
        body_len > self.threshold
    }
}

} // verus!
