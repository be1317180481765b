use vstd::prelude::*;

verus! {

/// Flow-control windows of one side of a stream or connection.
#[derive(Clone, Copy, Debug, PartialEq, Eq)]
pub struct Flow {
    /// What the peer allows us to send.
    pub send_win: i64,
    /// What we allow the peer to send (grown only by WINDOW_UPDATE credit).
    pub recv_win: i64,
}

impl Flow {
    pub fn new(init_send: u32, init_recv: u32) -> (r: Flow)
        ensures
            r.send_win == init_send,
            r.recv_win == init_recv,
    {
        Flow { send_win: init_send as i64, recv_win: init_recv as i64 }
    }

    pub fn inc_send(&mut self, n: u32)
        requires
            old(self).send_win + n <= i64::MAX,
        ensures
            final(self).send_win == old(self).send_win + n,
            final(self).recv_win == old(self).recv_win,
    {
        self.send_win = self.send_win + n as i64;
    }

    pub fn dec_send(&mut self, n: u32)
        requires
            old(self).send_win - n >= i64::MIN,
        ensures
            final(self).send_win == old(self).send_win - n,
            final(self).recv_win == old(self).recv_win,
    {
        self.send_win = self.send_win - n as i64;
    }

    pub fn inc_recv(&mut self, n: u32)
        requires
            old(self).recv_win + n <= i64::MAX,
        ensures
            final(self).recv_win == old(self).recv_win + n,
            final(self).send_win == old(self).send_win,
    {
        self.recv_win = self.recv_win + n as i64;
    }

    pub fn dec_recv(&mut self, n: u32)
        requires
            old(self).recv_win - n >= i64::MIN,
        ensures
            final(self).recv_win == old(self).recv_win - n,
            final(self).send_win == old(self).send_win,
    {
        self.recv_win = self.recv_win - n as i64;
    }
}

/// Crediting and then debiting the same amount leaves both windows as they
/// were (and the other way round).
pub proof fn lemma_flow_inc_dec(f: Flow, n: u32)
    ensures
        f.send_win + n - n == f.send_win,
        f.recv_win - n + n == f.recv_win,
{
}

/// Identity of a connection slot: index and generation.
#[derive(Clone, Copy, Debug, PartialEq, Eq, Hash)]
pub struct ConnKey {
    pub idx: u32,
    pub gen: u32,
}

impl ConnKey {
    pub fn new(idx: u32, gen: u32) -> (r: ConnKey)
        ensures
            r.idx == idx,
            r.gen == gen,
    {
        ConnKey { idx, gen }
    }
}

/// An optional point in time, in nanoseconds.
#[derive(Clone, Copy, Debug, PartialEq, Eq)]
pub struct Deadline(Option<u64>);

impl Deadline {
    /// The instant, if any.
    pub closed spec fn instant(self) -> Option<u64> {
        self.0
    }

    pub fn none() -> (r: Deadline)
        ensures
            r.instant() == Option::<u64>::None,
    {
        Deadline(None)
    }

    pub fn at(ts_ns: u64) -> (r: Deadline)
        ensures
            r.instant() == Some(ts_ns),
    {
        Deadline(Some(ts_ns))
    }

    pub fn as_nanos(self) -> (r: Option<u64>)
        ensures
            r == self.instant(),
    {
        self.0
    }
}

} // verus!
