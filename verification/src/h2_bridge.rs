//! Carries what downstream and upstream connections parse from one side to
//! the other: requests go out on a stream of a ready upstream connection,
//! responses come back to the downstream stream they answer.
use vstd::prelude::*;
use std::collections::VecDeque;

use crate::h2_buf::{releases_of, BufCall, BufChain, BufOps};
use crate::h2_down::{after_local_end, header_frames, queued_all, Credit, DownEvent, DownstreamH2, DownstreamSink, RequestHead};
use crate::h2_error::{H2Code, H2Error};
use crate::h2_flow::ConnKey;
use crate::h2_hpack::{header_pairs, Header};
use crate::h2_pool::UpstreamPool;
use crate::h2_request::{copy_bytes, eq_lit, opt_view};
use crate::h2_streams::{DownLink, Stream, UpLink};
use crate::h2_up::{UpEvent, UpstreamH2, UpstreamSink};

verus! {

pub open spec fn name_host() -> Seq<u8> {
    seq![104u8, 111, 115, 116]
}

/// The value of the first `host` header.
pub open spec fn host_of(hs: Seq<(Seq<u8>, Seq<u8>)>) -> Option<Seq<u8>>
    decreases hs.len(),
{
    if hs.len() == 0 {
        None
    } else if hs[0].0 == name_host() {
        Some(hs[0].1)
    } else {
        host_of(hs.drop_first())
    }
}

pub open spec fn opt_pair(name: Seq<u8>, v: Option<Seq<u8>>) -> Seq<(Seq<u8>, Seq<u8>)> {
    match v {
        Some(x) => seq![(name, x)],
        None => Seq::empty(),
    }
}

/// The header list of the upstream request: `:method`, `:scheme` when
/// known, `:authority` (from the `host` header when the request had none),
/// `:path` when known, then the request's own headers.
pub open spec fn upstream_request_pairs(
    method: Seq<u8>,
    scheme: Option<Seq<u8>>,
    authority: Option<Seq<u8>>,
    path: Option<Seq<u8>>,
    hs: Seq<(Seq<u8>, Seq<u8>)>,
) -> Seq<(Seq<u8>, Seq<u8>)> {
    let auth = match authority {
        Some(a) => Some(a),
        None => host_of(hs),
    };
    seq![(crate::h2_request::name_method(), method)] + opt_pair(crate::h2_request::name_scheme(), scheme)
        + opt_pair(crate::h2_request::name_authority(), auth) + opt_pair(crate::h2_request::name_path(), path) + hs
}

fn find_host(hs: &Vec<Header>) -> (r: Option<Vec<u8>>)
    ensures
        opt_view(r) == host_of(header_pairs(hs@)),
{
    let ghost ps = header_pairs(hs@);
    let mut i: usize = 0;
    proof {
        assert(ps.skip(0) =~= ps);
    }
    while i < hs.len()
        invariant
            i <= hs.len(),
            ps == header_pairs(hs@),
            host_of(ps) == host_of(ps.skip(i as int)),
        decreases hs.len() - i,
    {
        proof {
            assert(ps.skip(i as int)[0] == ps[i as int]);
            assert(ps.skip(i as int).drop_first() =~= ps.skip(i as int + 1));
        }
        if eq_lit(hs[i].name.as_slice(), &[104u8, 111, 115, 116]) {
            return Some(copy_bytes(&hs[i].value));
        }
        i = i + 1;
    }
    proof {
        assert(ps.skip(i as int).len() == 0);
    }
    None
}

/// The headers of the upstream request for a downstream request: the
/// pseudo-headers first, then the request's own headers.
pub fn upstream_request_headers(head: RequestHead) -> (r: Vec<Header>)
    ensures
        header_pairs(r@) == upstream_request_pairs(
            head.method@,
            opt_view(head.scheme),
            opt_view(head.authority),
            opt_view(head.path),
            header_pairs(head.headers@),
        ),
{
    let ghost hp = header_pairs(head.headers@);
    let RequestHead { method, scheme, authority, path, headers } = head;
    let mut hs: Vec<Header> = Vec::new();
    hs.push(Header { name: vec![58u8, 109, 101, 116, 104, 111, 100], value: method });
    let ghost p1 = header_pairs(hs@);
    match scheme {
        Some(s) => {
            hs.push(Header { name: vec![58u8, 115, 99, 104, 101, 109, 101], value: s });
        },
        None => {},
    }
    let ghost p2 = header_pairs(hs@);
    let auth = match authority {
        Some(a) => Some(a),
        None => find_host(&headers),
    };
    match auth {
        Some(a) => {
            hs.push(Header { name: vec![58u8, 97, 117, 116, 104, 111, 114, 105, 116, 121], value: a });
        },
        None => {},
    }
    let ghost p3 = header_pairs(hs@);
    match path {
        Some(p) => {
            hs.push(Header { name: vec![58u8, 112, 97, 116, 104], value: p });
        },
        None => {},
    }
    let ghost p4 = header_pairs(hs@);
    let ghost before = hs@;
    let mut rest = headers;
    hs.append(&mut rest);
    proof {
        assert(hs@ =~= before + head.headers@);
        assert(header_pairs(before + head.headers@) =~= header_pairs(before) + hp);
    }
    hs
}

/// A parsed event waiting to be carried to the other side.
pub enum Op {
    DownHeaders { down: ConnKey, sid: u32, end_stream: bool, head: RequestHead },
    DownData { down: ConnKey, sid: u32, end_stream: bool, data: BufChain },
    DownRst { down: ConnKey, sid: u32, code: H2Code },
    UpHeaders { up: ConnKey, up_sid: u32, end_stream: bool, status: u16, headers: Vec<Header> },
    UpData { up: ConnKey, up_sid: u32, end_stream: bool, data: BufChain },
    UpRst { up: ConnKey, up_sid: u32, code: H2Code },
    UpGoaway { up: ConnKey, last_sid: u32, code: H2Code },
}

spec fn op_wf(op: Op) -> bool {
    match op {
        Op::DownData { data, .. } => data.wf(),
        Op::UpData { data, .. } => data.wf(),
        Op::UpHeaders { status, .. } => status <= 999,
        _ => true,
    }
}

/// Where the downstream connections live.
pub trait DownConnStore {
    /// The connections held, by key. An implementation defines it from its
    /// state; the empty map here is a placeholder, there only so that an
    /// implementation outside `verus!` compiles, and one that keeps it can
    /// only ever answer `None` from `get_mut`.
    closed spec fn conns(&self) -> Map<ConnKey, DownstreamH2> {
        Map::empty()
    }

    /// The connection with key `key`, if it is still there; what is done
    /// through the reference is what the store then holds under `key`.
    fn get_mut(&mut self, key: ConnKey) -> (r: Option<&mut DownstreamH2>)
        ensures
            r is Some <==> old(self).conns().contains_key(key),
            r matches Some(d) ==> {
                &&& *d == old(self).conns()[key]
                &&& d.wf()
                &&& final(self).conns() == old(self).conns().insert(key, *final(d))
            },
            r is None ==> final(self).conns() == old(self).conns(),
    ;
}

/// Events queued by the connections' parsers, carried across by `drain`.
pub struct Bridge {
    q: VecDeque<Op>,
    down_log: Ghost<Seq<DownEvent>>,
    up_log: Ghost<Seq<UpEvent>>,
}

impl Bridge {
    #[verifier::type_invariant]
    spec fn inv(self) -> bool {
        forall|i: int| 0 <= i < self.q@.len() ==> op_wf(#[trigger] self.q@[i])
    }

    /// How many events wait.
    pub closed spec fn waiting(&self) -> nat {
        self.q@.len()
    }

    /// The events that wait, oldest first.
    pub closed spec fn queue(&self) -> Seq<Op> {
        self.q@
    }

    pub fn new() -> (r: Self)
        ensures
            r.waiting() == 0,
    {
        Bridge { q: VecDeque::new(), down_log: Ghost(Seq::empty()), up_log: Ghost(Seq::empty()) }
    }

    fn enqueue(&mut self, op: Op)
        requires
            op_wf(op),
        ensures
            final(self).waiting() == old(self).waiting() + 1,
            final(self).queue() == old(self).queue().push(op),
            final(self).down_log == old(self).down_log,
            final(self).up_log == old(self).up_log,
    {
        proof {
            use_type_invariant(&*self);
        }
        let mut q: VecDeque<Op> = VecDeque::new();
        std::mem::swap(&mut q, &mut self.q);
        let ghost q0 = q@;
        q.push_back(op);
        proof {
            assert forall|i: int| 0 <= i < q@.len() implies op_wf(#[trigger] q@[i]) by {
                if i < q0.len() {
                    assert(q@[i] == q0[i]);
                }
            }
        }
        self.q = q;
    }

    fn dequeue(&mut self) -> (r: Option<Op>)
        ensures
            old(self).waiting() == 0 ==> r is None && final(self).waiting() == 0,
            old(self).waiting() > 0 ==> r is Some && final(self).waiting() == old(self).waiting() - 1,
            r matches Some(op) ==> op_wf(op),
            old(self).waiting() > 0 ==> r == Some(old(self).queue()[0]) && final(self).queue() == old(self).queue().drop_first(),
    {
        proof {
            use_type_invariant(&*self);
        }
        let mut q: VecDeque<Op> = VecDeque::new();
        std::mem::swap(&mut q, &mut self.q);
        let ghost q0 = q@;
        let r = q.pop_front();
        proof {
            if q0.len() > 0 {
                assert(op_wf(q0[0]));
                assert forall|i: int| 0 <= i < q@.len() implies op_wf(#[trigger] q@[i]) by {
                    assert(q@[i] == q0[i + 1]);
                }
            }
        }
        self.q = q;
        r
    }
}

impl DownstreamSink for Bridge {
    closed spec fn events(&self) -> Seq<DownEvent> {
        self.down_log@
    }

    fn on_request_headers(&mut self, down: ConnKey, sid: u32, end_stream: bool, head: RequestHead)
        ensures
            final(self).queue() == old(self).queue().push(Op::DownHeaders { down, sid, end_stream, head }),
    {
        let ghost ev = DownEvent::Headers { down, sid, end_stream, head };
        self.enqueue(Op::DownHeaders { down, sid, end_stream, head });
        proof {
            use_type_invariant(&*self);
            self.down_log@ = self.down_log@.push(ev);
        }
    }

    fn on_request_data(&mut self, down: ConnKey, sid: u32, end_stream: bool, data: BufChain)
        ensures
            final(self).queue() == old(self).queue().push(Op::DownData { down, sid, end_stream, data }),
    {
        let ghost ev = DownEvent::Data { down, sid, end_stream, data };
        self.enqueue(Op::DownData { down, sid, end_stream, data });
        proof {
            use_type_invariant(&*self);
            self.down_log@ = self.down_log@.push(ev);
        }
    }

    fn on_rst_stream(&mut self, down: ConnKey, sid: u32, code: H2Code)
        ensures
            final(self).queue() == old(self).queue().push(Op::DownRst { down, sid, code }),
    {
        let ghost ev = DownEvent::Reset { down, sid, code };
        self.enqueue(Op::DownRst { down, sid, code });
        proof {
            use_type_invariant(&*self);
            self.down_log@ = self.down_log@.push(ev);
        }
    }

    fn on_goaway(&mut self, down: ConnKey, last_sid: u32, code: H2Code)
    {
        proof {
            use_type_invariant(&*self);
            self.down_log@ = self.down_log@.push(DownEvent::Goaway { down, last_sid, code });
        }
    }

    fn on_conn_error(&mut self, down: ConnKey, err: H2Error)
    {
        proof {
            use_type_invariant(&*self);
            self.down_log@ = self.down_log@.push(DownEvent::ConnError { down, err });
        }
    }
}

impl UpstreamSink for Bridge {
    closed spec fn events(&self) -> Seq<UpEvent> {
        self.up_log@
    }

    fn on_response_headers(&mut self, up: ConnKey, up_sid: u32, end_stream: bool, status: u16, headers: Vec<Header>)
        ensures
            final(self).queue() == old(self).queue().push(Op::UpHeaders { up, up_sid, end_stream, status, headers }),
    {
        let ghost ev = UpEvent::Headers { up, up_sid, end_stream, status, headers };
        self.enqueue(Op::UpHeaders { up, up_sid, end_stream, status, headers });
        proof {
            use_type_invariant(&*self);
            self.up_log@ = self.up_log@.push(ev);
        }
    }

    fn on_response_data(&mut self, up: ConnKey, up_sid: u32, end_stream: bool, data: BufChain)
        ensures
            final(self).queue() == old(self).queue().push(Op::UpData { up, up_sid, end_stream, data }),
    {
        let ghost ev = UpEvent::Data { up, up_sid, end_stream, data };
        self.enqueue(Op::UpData { up, up_sid, end_stream, data });
        proof {
            use_type_invariant(&*self);
            self.up_log@ = self.up_log@.push(ev);
        }
    }

    fn on_rst_stream(&mut self, up: ConnKey, up_sid: u32, code: H2Code)
        ensures
            final(self).queue() == old(self).queue().push(Op::UpRst { up, up_sid, code }),
    {
        let ghost ev = UpEvent::Reset { up, up_sid, code };
        self.enqueue(Op::UpRst { up, up_sid, code });
        proof {
            use_type_invariant(&*self);
            self.up_log@ = self.up_log@.push(ev);
        }
    }

    fn on_goaway(&mut self, up: ConnKey, last_sid: u32, code: H2Code)
        ensures
            final(self).queue() == old(self).queue().push(Op::UpGoaway { up, last_sid, code }),
    {
        let ghost ev = UpEvent::Goaway { up, last_sid, code };
        self.enqueue(Op::UpGoaway { up, last_sid, code });
        proof {
            use_type_invariant(&*self);
            self.up_log@ = self.up_log@.push(ev);
        }
    }

    fn on_conn_error(&mut self, up: ConnKey, err: H2Error)
    {
        proof {
            use_type_invariant(&*self);
            self.up_log@ = self.up_log@.push(UpEvent::ConnError { up, err });
        }
    }
}

/// The stream table of a downstream connection once stream `sid` is bound
/// to upstream stream `l`.
pub open spec fn bound(m: Map<u32, Stream>, sid: u32, l: UpLink) -> Map<u32, Stream> {
    if m.contains_key(sid) {
        m.insert(sid, Stream { uplink: Some(l), ..m[sid] })
    } else {
        m
    }
}

/// Answers downstream stream `sid` with an empty response of `status`
/// that ends the stream (nothing happens for an unknown stream).
fn answer_status(d: &mut DownstreamH2, sid: u32, status: u16)
    requires
        old(d).wf(),
        status <= 999,
    ensures
        final(d).wf(),
        final(d).stream_map() == after_local_end(old(d).stream_map(), sid),
        headers_answered(*old(d), *final(d), sid, true),
{
    let _ = d.send_response_headers(sid, status, Vec::new(), true);
}

/// Sends a downstream request on a new stream of the first ready upstream
/// connection and binds the two streams; a request that no connection takes
/// is answered with 503, which ends the stream.
fn forward_request(d: &mut DownstreamH2, ups: &mut UpstreamPool, down: ConnKey, sid: u32, end_stream: bool, head: RequestHead) -> (r: Option<UpLink>)
    requires
        old(d).wf(),
        old(ups).wf(),
    ensures
        final(d).wf(),
        final(ups).wf(),
        final(ups).same_layout(old(ups)),
        r matches Some(l) ==> {
            let i = l.up_conn.idx as int;
            &&& old(ups).first_ready_from(0) matches Some(j) && l.up_conn.idx == j as u32
            &&& old(ups).key_live(l.up_conn)
            &&& old(ups).conn_at(i) is Some
            &&& l.up_sid == old(ups).conn_at(i).unwrap().next_stream_id()
            &&& final(ups).conn_at(i).unwrap().stream_map().contains_key(l.up_sid)
            &&& final(ups).conn_at(i).unwrap().stream_map()[l.up_sid].down == (DownLink { down, down_sid: sid })
            &&& final(d).stream_map() == bound(old(d).stream_map(), sid, l)
        },
        r is None ==> final(d).stream_map() == after_local_end(old(d).stream_map(), sid),
{
    let up_key = match ups.pick_ready() {
        Some(k) => k,
        None => {
            answer_status(d, sid, 503);
            return None;
        },
    };
    let ghost ups1 = *ups;
    let u = match ups.get_mut(up_key) {
        Some(u) => u,
        None => {
            answer_status(d, sid, 503);
            return None;
        },
    };
    let up_sid = match u.open_stream(DownLink { down, down_sid: sid }) {
        Ok(x) => x,
        Err(_) => {
            answer_status(d, sid, 503);
            return None;
        },
    };
    let link = UpLink { up_conn: up_key, up_sid };
    d.bind_uplink(sid, link);
    let hs = upstream_request_headers(head);
    if u.send_request_headers(up_sid, end_stream, hs).is_err() {
        answer_status(d, sid, 503);
        let _ = u.send_rst_stream(up_sid, H2Code::Cancel);
        u.close_stream(up_sid);
        return None;
    }
    Some(link)
}

/// The upstream stream downstream stream `sid` is bound to, if any.
pub open spec fn link_of(m: Map<u32, Stream>, sid: u32) -> Option<UpLink> {
    if m.contains_key(sid) {
        m[sid].uplink
    } else {
        None
    }
}

/// The connection of slot `i` is there and its key is live.
pub open spec fn conn_there(ups: UpstreamPool, key: ConnKey) -> bool {
    ups.key_live(key) && ups.conn_at(key.idx as int) is Some
}

/// The stream table of the upstream connection `key` names.
pub open spec fn up_streams(ups: UpstreamPool, key: ConnKey) -> Map<u32, crate::h2_streams::UpStream> {
    ups.conn_at(key.idx as int).unwrap().stream_map()
}

/// Sends request body bytes on the upstream stream the downstream stream is
/// bound to, with a credit that returns their window to the downstream
/// stream once written; a stream not bound yet is answered with 502, one
/// whose upstream connection is gone with 503, and the bytes go back to the
/// pool.
fn forward_request_data<O: BufOps>(
    d: &mut DownstreamH2,
    ups: &mut UpstreamPool,
    ops: &mut O,
    down: ConnKey,
    sid: u32,
    end_stream: bool,
    data: BufChain,
)
    requires
        old(d).wf(),
        old(ups).wf(),
        data.wf(),
    ensures
        final(d).wf(),
        final(ups).wf(),
        final(ups).same_layout(old(ups)),
        match link_of(old(d).stream_map(), sid) {
            None => final(d).stream_map() == after_local_end(old(d).stream_map(), sid) && *final(ups) == *old(ups),
            Some(l) => if conn_there(*old(ups), l.up_conn) {
                *final(d) == *old(d)
            } else {
                final(d).stream_map() == after_local_end(old(d).stream_map(), sid) && *final(ups) == *old(ups)
            },
        },
{
    let mut data = data;
    let link = match d.uplink(sid) {
        Some(l) => l,
        None => {
            answer_status(d, sid, 502);
            data.release(ops);
            return;
        },
    };
    let u = match ups.get_mut(link.up_conn) {
        Some(u) => u,
        None => {
            answer_status(d, sid, 503);
            data.release(ops);
            return;
        },
    };
    let bytes = data.total_len();
    let credit = Some(Credit::ToDownstream { conn: down, sid, bytes });
    if u.send_request_data(link.up_sid, end_stream, data, credit, ops).is_err() {
        answer_status(d, sid, 503);
        let _ = u.send_rst_stream(link.up_sid, H2Code::Cancel);
        u.close_stream(link.up_sid);
    }
}

/// A downstream stream was reset: its upstream stream is reset with CANCEL
/// and forgotten.
fn cancel_upstream(d: &DownstreamH2, ups: &mut UpstreamPool, sid: u32)
    requires
        d.wf(),
        old(ups).wf(),
    ensures
        final(ups).wf(),
        final(ups).same_layout(old(ups)),
        match link_of(d.stream_map(), sid) {
            Some(l) => conn_there(*old(ups), l.up_conn) ==> up_streams(*final(ups), l.up_conn)
                == up_streams(*old(ups), l.up_conn).remove(l.up_sid),
            None => *final(ups) == *old(ups),
        },
{
    match d.uplink(sid) {
        Some(link) => {
            match ups.get_mut(link.up_conn) {
                Some(u) => {
                    let _ = u.send_rst_stream(link.up_sid, H2Code::Cancel);
                    u.close_stream(link.up_sid);
                },
                None => {},
            }
        },
        None => {},
    }
}

/// The downstream stream that upstream stream `up_sid` of connection `up`
/// serves, when both the connection and the stream are there.
pub open spec fn served_by(ups: UpstreamPool, up: ConnKey, up_sid: u32) -> Option<DownLink> {
    if conn_there(ups, up) && up_streams(ups, up).contains_key(up_sid) {
        Some(up_streams(ups, up)[up_sid].down)
    } else {
        None
    }
}

/// `d1` is `d0` after response headers were sent on stream `sid`: HEADERS
/// (and CONTINUATION) frames queued and the stream ended on this side when
/// asked, or nothing when the stream is gone.
pub open spec fn headers_answered(d0: DownstreamH2, d1: DownstreamH2, sid: u32, end_stream: bool) -> bool {
    if d0.stream_map().contains_key(sid) {
        &&& exists|block: Seq<u8>| #[trigger] queued_all(
            d0.tx_items(),
            d1.tx_items(),
            header_frames(sid, end_stream, block.len(), d0.frame_size_out() as nat),
            block,
        )
        &&& d1.stream_map() == if end_stream {
            after_local_end(d0.stream_map(), sid)
        } else {
            d0.stream_map()
        }
    } else {
        d1.tx_items() == d0.tx_items() && d1.stream_map() == d0.stream_map()
    }
}

/// `d1` is `d0` after a response body was handed to stream `sid`: DATA
/// frames queued after what was queued and the rest waiting after what
/// waited, or nothing when the stream is gone.
pub open spec fn data_answered(d0: DownstreamH2, d1: DownstreamH2, sid: u32) -> bool {
    &&& d1.tx_items().take(d0.tx_items().len() as int) == d0.tx_items()
    &&& d1.pending_items().take(d0.pending_items().len() as int) == d0.pending_items()
    &&& d1.pending_items().len() <= d0.pending_items().len() + 1
    &&& !d0.stream_map().contains_key(sid) ==> d1.tx_items() == d0.tx_items()
        && d1.pending_items() == d0.pending_items() && d1.stream_map() == d0.stream_map()
}

/// Hands response headers to the downstream stream the upstream stream
/// serves; a response that ends the stream lets the upstream stream go.
fn deliver_response_headers<D: DownConnStore>(
    ups: &mut UpstreamPool,
    downs: &mut D,
    up: ConnKey,
    up_sid: u32,
    end_stream: bool,
    status: u16,
    headers: Vec<Header>,
)
    requires
        old(ups).wf(),
        status <= 999,
    ensures
        final(ups).wf(),
        final(ups).same_layout(old(ups)),
        conn_there(*old(ups), up) ==> {
            ||| up_streams(*final(ups), up) == up_streams(*old(ups), up)
            ||| end_stream && up_streams(*final(ups), up) == up_streams(*old(ups), up).remove(up_sid)
        },
        !conn_there(*old(ups), up) ==> *final(ups) == *old(ups),
        conn_there(*old(ups), up) && !up_streams(*old(ups), up).contains_key(up_sid)
            ==> up_streams(*final(ups), up) == up_streams(*old(ups), up),
        conn_there(*old(ups), up) && !end_stream ==> up_streams(*final(ups), up) == up_streams(*old(ups), up),
        match served_by(*old(ups), up, up_sid) {
            Some(dl) => if old(downs).conns().contains_key(dl.down) {
                &&& final(downs).conns() == old(downs).conns().insert(dl.down, final(downs).conns()[dl.down])
                &&& headers_answered(old(downs).conns()[dl.down], final(downs).conns()[dl.down], dl.down_sid, end_stream)
                &&& up_streams(*final(ups), up) == if end_stream {
                    up_streams(*old(ups), up).remove(up_sid)
                } else {
                    up_streams(*old(ups), up)
                }
            } else {
                final(downs).conns() == old(downs).conns() && up_streams(*final(ups), up) == up_streams(*old(ups), up)
            },
            None => final(downs).conns() == old(downs).conns(),
        },
{
    let u = match ups.get_mut(up) {
        Some(u) => u,
        None => {
            return;
        },
    };
    let dl = match u.downlink(up_sid) {
        Some(x) => x,
        None => {
            return;
        },
    };
    let d = match downs.get_mut(dl.down) {
        Some(d) => d,
        None => {
            return;
        },
    };
    let _ = d.send_response_headers(dl.down_sid, status, headers, end_stream);
    if end_stream {
        u.close_stream(up_sid);
    }
}

/// Hands response body bytes to the downstream stream the upstream stream
/// serves, with a credit that returns their window to the upstream stream
/// once written; without a stream to take them they go back to the pool.  A
/// body that ends lets the upstream stream go.
fn deliver_response_data<O: BufOps, D: DownConnStore>(
    ups: &mut UpstreamPool,
    downs: &mut D,
    ops: &mut O,
    up: ConnKey,
    up_sid: u32,
    end_stream: bool,
    data: BufChain,
)
    requires
        old(ups).wf(),
        data.wf(),
    ensures
        final(ups).wf(),
        final(ups).same_layout(old(ups)),
        conn_there(*old(ups), up) ==> {
            ||| up_streams(*final(ups), up) == up_streams(*old(ups), up)
            ||| end_stream && up_streams(*final(ups), up) == up_streams(*old(ups), up).remove(up_sid)
        },
        !conn_there(*old(ups), up) ==> *final(ups) == *old(ups),
        conn_there(*old(ups), up) && !up_streams(*old(ups), up).contains_key(up_sid)
            ==> up_streams(*final(ups), up) == up_streams(*old(ups), up),
        match served_by(*old(ups), up, up_sid) {
            Some(dl) => if old(downs).conns().contains_key(dl.down) {
                &&& final(downs).conns() == old(downs).conns().insert(dl.down, final(downs).conns()[dl.down])
                &&& data_answered(old(downs).conns()[dl.down], final(downs).conns()[dl.down], dl.down_sid)
                &&& up_streams(*final(ups), up) == if end_stream {
                    up_streams(*old(ups), up).remove(up_sid)
                } else {
                    up_streams(*old(ups), up)
                }
            } else {
                final(downs).conns() == old(downs).conns() && up_streams(*final(ups), up) == up_streams(*old(ups), up)
            },
            None => final(downs).conns() == old(downs).conns(),
        },
        (match served_by(*old(ups), up, up_sid) {
            Some(dl) => !old(downs).conns().contains_key(dl.down),
            None => true,
        }) ==> final(ops).calls() == old(ops).calls() + releases_of(data.segs()),
{
    let mut data = data;
    let u = match ups.get_mut(up) {
        Some(u) => u,
        None => {
            data.release(ops);
            return;
        },
    };
    let dl = match u.downlink(up_sid) {
        Some(x) => x,
        None => {
            data.release(ops);
            return;
        },
    };
    let d = match downs.get_mut(dl.down) {
        Some(d) => d,
        None => {
            data.release(ops);
            return;
        },
    };
    let bytes = data.total_len();
    let credit = Some(Credit::ToUpstream { conn: up, sid: up_sid, bytes });
    if d.send_response_data(dl.down_sid, end_stream, data, credit, ops).is_err() {
        let _ = u.send_rst_stream(up_sid, H2Code::Cancel);
        u.close_stream(up_sid);
        return;
    }
    if end_stream {
        u.close_stream(up_sid);
    }
}

/// An upstream stream was reset: the downstream stream it serves is
/// answered with 502, and the upstream stream is forgotten.
fn upstream_reset<D: DownConnStore>(ups: &mut UpstreamPool, downs: &mut D, up: ConnKey, up_sid: u32)
    requires
        old(ups).wf(),
    ensures
        final(ups).wf(),
        final(ups).same_layout(old(ups)),
        conn_there(*old(ups), up) ==> up_streams(*final(ups), up) == up_streams(*old(ups), up).remove(up_sid),
        !conn_there(*old(ups), up) ==> *final(ups) == *old(ups),
        match served_by(*old(ups), up, up_sid) {
            Some(dl) => if old(downs).conns().contains_key(dl.down) {
                &&& final(downs).conns() == old(downs).conns().insert(dl.down, final(downs).conns()[dl.down])
                &&& headers_answered(old(downs).conns()[dl.down], final(downs).conns()[dl.down], dl.down_sid, true)
            } else {
                final(downs).conns() == old(downs).conns()
            },
            None => final(downs).conns() == old(downs).conns(),
        },
{
    let u = match ups.get_mut(up) {
        Some(u) => u,
        None => {
            return;
        },
    };
    match u.downlink(up_sid) {
        Some(dl) => {
            match downs.get_mut(dl.down) {
                Some(d) => {
                    answer_status(d, dl.down_sid, 502);
                },
                None => {},
            }
        },
        None => {},
    }
    u.close_stream(up_sid);
}

/// An upstream connection announced GOAWAY: it takes no new streams.
fn upstream_goaway(ups: &mut UpstreamPool, up: ConnKey, last_sid: u32, code: H2Code)
    requires
        old(ups).wf(),
    ensures
        final(ups).wf(),
        final(ups).same_layout(old(ups)),
        conn_there(*old(ups), up) ==> final(ups).conn_at(up.idx as int).unwrap().draining_now(),
        !conn_there(*old(ups), up) ==> *final(ups) == *old(ups),
{
    match ups.get_mut(up) {
        Some(u) => {
            u.mark_goaway(last_sid, code);
        },
        None => {},
    }
}

/// Request headers of downstream stream `sid` of connection `down` went out
/// on upstream stream `l`: a new stream of the first ready upstream
/// connection, which now serves the downstream stream.
pub open spec fn forwarded(ups0: UpstreamPool, ups1: UpstreamPool, down: ConnKey, sid: u32, l: UpLink) -> bool {
    let i = l.up_conn.idx as int;
    &&& ups0.first_ready_from(0) matches Some(j) && l.up_conn.idx == j as u32
    &&& ups0.key_live(l.up_conn)
    &&& ups0.conn_at(i) is Some
    &&& l.up_sid == ups0.conn_at(i).unwrap().next_stream_id()
    &&& ups1.conn_at(i).unwrap().stream_map().contains_key(l.up_sid)
    &&& ups1.conn_at(i).unwrap().stream_map()[l.up_sid].down == (DownLink { down, down_sid: sid })
}

/// What carrying `op` across did to the upstream pool (`ups0` to `ups1`)
/// and to the downstream connections (`dc0` to `dc1`): an event for a
/// connection that is gone changes nothing (its body bytes go back to the
/// pool); otherwise the event reaches the connection it names.
pub open spec fn op_carried(
    op: Op,
    ups0: UpstreamPool,
    ups1: UpstreamPool,
    dc0: Map<ConnKey, DownstreamH2>,
    dc1: Map<ConnKey, DownstreamH2>,
    calls0: Seq<BufCall>,
    calls1: Seq<BufCall>,
) -> bool {
    &&& ups1.wf()
    &&& ups1.same_layout(&ups0)
    &&& match op {
        Op::DownData { down, data, .. } => !dc0.contains_key(down) ==> calls1 =~= calls0 + releases_of(data.segs()),
        Op::UpData { up, up_sid, data, .. } => (match served_by(ups0, up, up_sid) {
            Some(dl) => !dc0.contains_key(dl.down),
            None => true,
        }) ==> calls1 =~= calls0 + releases_of(data.segs()),
        _ => true,
    }
    &&& match op {
        Op::DownHeaders { down, sid, .. } => if dc0.contains_key(down) {
            &&& dc1 =~= dc0.insert(down, dc1[down])
            &&& {
                ||| dc1[down].stream_map() == after_local_end(dc0[down].stream_map(), sid)
                ||| exists|l: UpLink| #[trigger] forwarded(ups0, ups1, down, sid, l)
                    && dc1[down].stream_map() == bound(dc0[down].stream_map(), sid, l)
            }
        } else {
            ups1 == ups0 && dc1 =~= dc0
        },
        Op::DownData { down, sid, .. } => if dc0.contains_key(down) {
            &&& dc1 =~= dc0.insert(down, dc1[down])
            &&& match link_of(dc0[down].stream_map(), sid) {
                None => dc1[down].stream_map() == after_local_end(dc0[down].stream_map(), sid) && ups1 == ups0,
                Some(l) => if conn_there(ups0, l.up_conn) {
                    dc1[down] == dc0[down]
                } else {
                    dc1[down].stream_map() == after_local_end(dc0[down].stream_map(), sid) && ups1 == ups0
                },
            }
        } else {
            ups1 == ups0 && dc1 =~= dc0
        },
        Op::DownRst { down, sid, .. } => if dc0.contains_key(down) {
            &&& dc1 =~= dc0
            &&& match link_of(dc0[down].stream_map(), sid) {
                Some(l) => conn_there(ups0, l.up_conn) ==> up_streams(ups1, l.up_conn) == up_streams(ups0, l.up_conn).remove(
                    l.up_sid,
                ),
                None => ups1 == ups0,
            }
        } else {
            ups1 == ups0 && dc1 =~= dc0
        },
        Op::UpHeaders { up, up_sid, end_stream, .. } => match served_by(ups0, up, up_sid) {
            Some(dl) => if dc0.contains_key(dl.down) {
                &&& dc1 =~= dc0.insert(dl.down, dc1[dl.down])
                &&& headers_answered(dc0[dl.down], dc1[dl.down], dl.down_sid, end_stream)
                &&& up_streams(ups1, up) == if end_stream {
                    up_streams(ups0, up).remove(up_sid)
                } else {
                    up_streams(ups0, up)
                }
            } else {
                dc1 =~= dc0 && up_streams(ups1, up) == up_streams(ups0, up)
            },
            None => dc1 =~= dc0,
        },
        Op::UpData { up, up_sid, end_stream, .. } => match served_by(ups0, up, up_sid) {
            Some(dl) => if dc0.contains_key(dl.down) {
                &&& dc1 =~= dc0.insert(dl.down, dc1[dl.down])
                &&& data_answered(dc0[dl.down], dc1[dl.down], dl.down_sid)
                &&& up_streams(ups1, up) == if end_stream {
                    up_streams(ups0, up).remove(up_sid)
                } else {
                    up_streams(ups0, up)
                }
            } else {
                dc1 =~= dc0 && up_streams(ups1, up) == up_streams(ups0, up)
            },
            None => dc1 =~= dc0,
        },
        Op::UpRst { up, up_sid, .. } => {
            &&& conn_there(ups0, up) ==> up_streams(ups1, up) == up_streams(ups0, up).remove(up_sid)
            &&& !conn_there(ups0, up) ==> ups1 == ups0
            &&& match served_by(ups0, up, up_sid) {
                Some(dl) => if dc0.contains_key(dl.down) {
                    &&& dc1 =~= dc0.insert(dl.down, dc1[dl.down])
                    &&& headers_answered(dc0[dl.down], dc1[dl.down], dl.down_sid, true)
                } else {
                    dc1 =~= dc0
                },
                None => dc1 =~= dc0,
            }
        },
        Op::UpGoaway { up, .. } => {
            &&& dc1 =~= dc0
            &&& conn_there(ups0, up) ==> ups1.conn_at(up.idx as int).unwrap().draining_now()
            &&& !conn_there(ups0, up) ==> ups1 == ups0
        },
    }
}

/// The events `q` were carried across in order: `tr[i]` is the upstream
/// pool, the downstream connections and the buffer calls made so far before
/// the `i`-th event, and `tr[i + 1]` after it.
pub open spec fn carried_in_order(q: Seq<Op>, tr: Seq<(UpstreamPool, Map<ConnKey, DownstreamH2>, Seq<BufCall>)>) -> bool {
    &&& tr.len() == q.len() + 1
    &&& forall|i: int| 0 <= i < q.len() ==> #[trigger] op_carried(q[i], tr[i].0, tr[i + 1].0, tr[i].1, tr[i + 1].1, tr[i].2, tr[i + 1].2)
}

impl Bridge {
    /// Carries every queued event across, oldest first: requests to a ready
    /// upstream connection, request bodies after them, resets both ways,
    /// responses back to the downstream streams they answer, and GOAWAY to
    /// the pool.  Events for connections that are gone are dropped, their
    /// body bytes given back to the pool.
    #[verifier::spinoff_prover]
    pub fn drain<O: BufOps, D: DownConnStore>(&mut self, ops: &mut O, downs: &mut D, ups: &mut UpstreamPool)
        requires
            old(ups).wf(),
        ensures
            final(self).waiting() == 0,
            final(ups).wf(),
            final(ups).same_layout(old(ups)),
            exists|tr: Seq<(UpstreamPool, Map<ConnKey, DownstreamH2>, Seq<BufCall>)>|
                #[trigger] carried_in_order(old(self).queue(), tr) && tr[0] == (*old(ups), old(downs).conns(), old(ops).calls())
                    && tr.last() == (*final(ups), final(downs).conns(), final(ops).calls()),
    {
        let ghost q0 = self.queue();
        let ghost mut tr: Seq<(UpstreamPool, Map<ConnKey, DownstreamH2>, Seq<BufCall>)> = seq![(*ups, downs.conns(), ops.calls())];
        loop
            invariant
                ups.wf(),
                ups.same_layout(old(ups)),
                q0 == old(self).queue(),
                self.waiting() == self.queue().len(),
                tr.len() >= 1,
                tr.len() - 1 + self.queue().len() == q0.len(),
                self.queue() == q0.skip(tr.len() - 1),
                tr[0] == (*old(ups), old(downs).conns(), old(ops).calls()),
                tr.last() == (*ups, downs.conns(), ops.calls()),
                forall|i: int| 0 <= i < tr.len() - 1 ==> #[trigger] op_carried(q0[i], tr[i].0, tr[i + 1].0, tr[i].1, tr[i + 1].1, tr[i].2, tr[i + 1].2),
            ensures
                self.waiting() == 0,
                carried_in_order(q0, tr),
                tr[0] == (*old(ups), old(downs).conns(), old(ops).calls()),
                tr.last() == (*ups, downs.conns(), ops.calls()),
            decreases self.waiting(),
        {
            let ghost qb = self.queue();
            let op = match self.dequeue() {
                Some(op) => op,
                None => {
                    proof {
                        assert(tr.len() - 1 == q0.len());
                    }
                    break;
                },
            };
            let ghost op0 = op;
            let ghost dc_before = downs.conns();
            let ghost calls_before = ops.calls();
            let ghost before = *ups;
            match op {
                Op::DownHeaders { down, sid, end_stream, head } => {
                    match downs.get_mut(down) {
                        Some(d) => {
                            let ghost d0 = *d;
                            let fr = forward_request(d, ups, down, sid, end_stream, head);
                            proof {
                                match fr {
                                    Some(l) => {
                                        assert(forwarded(before, *ups, down, sid, l));
                                    },
                                    None => {},
                                }
                            }
                        },
                        None => {},
                    }
                },
                Op::DownData { down, sid, end_stream, data } => {
                    let mut data = data;
                    match downs.get_mut(down) {
                        Some(d) => {
                            forward_request_data(d, ups, ops, down, sid, end_stream, data);
                        },
                        None => {
                            data.release(ops);
                        },
                    }
                },
                Op::DownRst { down, sid, code } => {
                    match downs.get_mut(down) {
                        Some(d) => {
                            cancel_upstream(d, ups, sid);
                        },
                        None => {},
                    }
                },
                Op::UpHeaders { up, up_sid, end_stream, status, headers } => {
                    deliver_response_headers(ups, downs, up, up_sid, end_stream, status, headers);
                },
                Op::UpData { up, up_sid, end_stream, data } => {
                    deliver_response_data(ups, downs, ops, up, up_sid, end_stream, data);
                },
                Op::UpRst { up, up_sid, code } => {
                    upstream_reset(ups, downs, up, up_sid);
                },
                Op::UpGoaway { up, last_sid, code } => {
                    upstream_goaway(ups, up, last_sid, code);
                },
            }
            proof {
                assert(qb[0] == op0);
                let tr0 = tr;
                tr = tr.push((*ups, downs.conns(), ops.calls()));
                assert(op_carried(op0, before, *ups, dc_before, downs.conns(), calls_before, ops.calls()));
                assert(self.queue() =~= q0.skip(tr.len() - 1));
                assert forall|i: int| 0 <= i < tr.len() - 1 implies #[trigger] op_carried(q0[i], tr[i].0, tr[i + 1].0, tr[i].1, tr[i + 1].1, tr[i].2, tr[i + 1].2) by {
                    if i < tr0.len() - 1 {
                        assert(tr[i] == tr0[i] && tr[i + 1] == tr0[i + 1]);
                    } else {
                        assert(q0[i] == qb[0]);
                    }
                }
                assert(ups.same_layout(old(ups))) by {
                    assert forall|i: int| 0 <= i < ups.slot_count() implies #[trigger] ups.gen_at(i) == old(ups).gen_at(i) by {
                        assert(before.gen_at(i) == old(ups).gen_at(i));
                    }
                    assert forall|i: int| 0 <= i < ups.slot_count() implies (#[trigger] ups.conn_at(i) is Some <==> old(ups).conn_at(i) is Some) by {
                        assert(before.conn_at(i) is Some <==> old(ups).conn_at(i) is Some);
                    }
                }
            }
        }
        proof {
            assert(carried_in_order(old(self).queue(), tr));
        }
    }
}

} // verus!
