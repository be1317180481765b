//! The client side of an HTTP/2 connection to an upstream: stream ids it
//! hands out, request framing with flow control, and response parsing.
//! Response bodies are handed on without copying.
use vstd::prelude::*;
use std::collections::VecDeque;

use crate::h2_buf::{count_id, covered, lemma_count_nonneg, BufChain, BufOps, BufSeg, RxChunk, RxQueue};
use crate::h2_down::{
    add_i64, be32, be32_at, be32_bytes, control_header, data_refs, header_frames, is_data_frame,
    is_frame, item_count, items_count, lemma_items_count_append, lemma_items_count_nonneg,
    lemma_pending_count_front, lemma_pending_count_nonneg, lemma_queued_count, pending_count,
    credit_amount, credit_left, item_credit, items_credit, lemma_credit_left_compose, min_int, push_frame, push_headers_block, queued, queued_all, rx_prefix, sat_i64, slice_vec, split_credit,
    tx_item_wf, u31_of, be32_value, lemma_prefix_kept, Credit, FrameRead, PendingData, TxItem,
};
use crate::h2_error::{code_of_value, code_value, H2Code, H2Error};
use crate::h2_flow::ConnKey;
use crate::h2_frame::{
    effective_max_frame, frame_type_of_byte, parsed_len, parsed_stream_id,
    preface, preface_bytes, FrameHeader, FrameType, FLAG_ACK, FLAG_END_HEADERS, FLAG_END_STREAM,
    FLAG_PADDED, FLAG_PRIORITY, FRAME_HEADER_LEN,
};
use crate::h2_request::{copy_bytes, eq_lit};
use crate::h2_hpack::{header_pairs, Header, HeaderBlockLimits, HpackDecoder, HpackEncoder};
use crate::h2_settings::{default_settings, lemma_apply_keeps_valid, settings_bytes, settings_valid, Settings};
use crate::h2_streams::{DownLink, StreamTable, UpStream, UpStreamState};

verus! {

/// Where an upstream connection delivers what it parses.
pub trait UpstreamSink {
    /// Everything handed to the sink so far, oldest first (defined by
    /// implementations as `DownstreamSink::events` is).
    closed spec fn events(&self) -> Seq<UpEvent> {
        Seq::empty()
    }

    fn on_response_headers(&mut self, up: ConnKey, up_sid: u32, end_stream: bool, status: u16, headers: Vec<Header>)
        requires
            status <= 999,
        ensures
            final(self).events() == old(self).events().push(UpEvent::Headers { up, up_sid, end_stream, status, headers }),
    ;

    fn on_response_data(&mut self, up: ConnKey, up_sid: u32, end_stream: bool, data: BufChain)
        requires
            data.wf(),
        ensures
            final(self).events() == old(self).events().push(UpEvent::Data { up, up_sid, end_stream, data }),
    ;

    fn on_rst_stream(&mut self, up: ConnKey, up_sid: u32, code: H2Code)
        ensures
            final(self).events() == old(self).events().push(UpEvent::Reset { up, up_sid, code }),
    ;

    fn on_goaway(&mut self, up: ConnKey, last_sid: u32, code: H2Code)
        ensures
            final(self).events() == old(self).events().push(UpEvent::Goaway { up, last_sid, code }),
    ;

    fn on_conn_error(&mut self, up: ConnKey, err: H2Error)
        ensures
            final(self).events() == old(self).events().push(UpEvent::ConnError { up, err }),
    ;
}

/// One thing an upstream connection hands its sink.
pub enum UpEvent {
    Headers { up: ConnKey, up_sid: u32, end_stream: bool, status: u16, headers: Vec<Header> },
    Data { up: ConnKey, up_sid: u32, end_stream: bool, data: BufChain },
    Reset { up: ConnKey, up_sid: u32, code: H2Code },
    Goaway { up: ConnKey, last_sid: u32, code: H2Code },
    ConnError { up: ConnKey, err: H2Error },
}

/// `after` is `before` with one connection error of code `code` for
/// connection `key` handed on.
pub open spec fn up_error_event(before: Seq<UpEvent>, after: Seq<UpEvent>, key: ConnKey, code: H2Code) -> bool {
    &&& after.len() == before.len() + 1
    &&& after.drop_last() =~= before
    &&& after.last() matches UpEvent::ConnError { up, err } && up == key && err.code == code
}

/// `after` is `before` with zero or more events added at the end.
pub open spec fn up_events_extend(before: Seq<UpEvent>, after: Seq<UpEvent>) -> bool {
    after.len() >= before.len() && after.take(before.len() as int) =~= before
}

/// `after` is `before` with one connection error for connection `key`.
pub open spec fn up_some_error(before: Seq<UpEvent>, after: Seq<UpEvent>, key: ConnKey) -> bool {
    &&& after.len() == before.len() + 1
    &&& after.drop_last() =~= before
    &&& after.last() matches UpEvent::ConnError { up, .. } && up == key
}

/// `after` is `before` with one DATA hand-off of stream `sid` of connection
/// `key`, whose chain holds exactly the byte references `refs`.
pub open spec fn up_data_event(
    before: Seq<UpEvent>,
    after: Seq<UpEvent>,
    key: ConnKey,
    sid: u32,
    end_stream: bool,
    refs: Seq<(u16, int)>,
) -> bool {
    &&& after.len() == before.len() + 1
    &&& after.drop_last() =~= before
    &&& after.last() matches UpEvent::Data { up, up_sid, end_stream: e, data }
        && up == key && up_sid == sid && e == end_stream && data.refs() == refs
}

/// `status` and `headers` are the response that the header list `hs`
/// describes.
pub open spec fn response_matches(status: u16, headers: Vec<Header>, hs: Seq<(Seq<u8>, Seq<u8>)>) -> bool {
    response_of(hs) matches Ok(res) && status == res.0 && header_pairs(headers@) == res.1
}

/// `after` is `before` with one response head of stream `sid` of connection
/// `key` handed on, the response of some decoded header list.
pub open spec fn up_headers_event(before: Seq<UpEvent>, after: Seq<UpEvent>, key: ConnKey, sid: u32, end_stream: bool) -> bool {
    &&& after.len() == before.len() + 1
    &&& after.drop_last() =~= before
    &&& after.last() matches UpEvent::Headers { up, up_sid, end_stream: e, status, headers }
        && up == key && up_sid == sid && e == end_stream
        && exists|hs: Seq<(Seq<u8>, Seq<u8>)>| #[trigger] response_matches(status, headers, hs)
}

/// A connection error with code `code` ended reading: GOAWAY is queued on
/// `after` and the error is handed on.
pub open spec fn up_failed(
    before: UpstreamH2,
    after: UpstreamH2,
    ev_before: Seq<UpEvent>,
    ev_after: Seq<UpEvent>,
    code: H2Code,
) -> bool {
    after.goaway_after(&before, code) && up_error_event(ev_before, ev_after, before.conn_key(), code)
}

/// The largest stream id.
pub const MAX_SID: u32 = 0x7fff_ffff;

/// The client side of one HTTP/2 connection.
pub struct UpstreamH2 {
    pub key: ConnKey,
    rx: RxQueue,
    tx: VecDeque<TxItem>,
    preface_queued: bool,
    need_first_settings: bool,
    /// The peer's settings (what this side respects when sending).
    pub peer: Settings,
    /// The settings this side advertises.
    pub local: Settings,
    max_frame_size_in: u32,
    max_frame_size_out: u32,
    send_conn_win: i64,
    recv_conn_win: i64,
    next_sid: u32,
    peer_max_concurrent: u32,
    draining: bool,
    peer_last_goaway_sid: u32,
    streams: StreamTable,
    hdec: HpackDecoder,
    henc: HpackEncoder,
    limits: HeaderBlockLimits,
    cont: Option<u32>,
    header_scratch: Vec<u8>,
    pending: VecDeque<PendingData>,
}

impl UpstreamH2 {
    pub closed spec fn conn_key(&self) -> ConnKey {
        self.key
    }

    pub closed spec fn peer_settings(&self) -> Settings {
        self.peer
    }

    pub closed spec fn local_settings(&self) -> Settings {
        self.local
    }

    pub closed spec fn tx_items(&self) -> Seq<TxItem> {
        self.tx@
    }

    pub closed spec fn pending_items(&self) -> Seq<PendingData> {
        self.pending@
    }

    pub closed spec fn rx_segs(&self) -> Seq<BufSeg> {
        self.rx.segs()
    }

    pub closed spec fn stream_map(&self) -> Map<u32, UpStream> {
        self.streams.by_sid()
    }

    pub closed spec fn stream_items(&self) -> Seq<UpStream> {
        self.streams.items()
    }

    pub closed spec fn conn_send_window(&self) -> i64 {
        self.send_conn_win
    }

    pub closed spec fn conn_recv_window(&self) -> i64 {
        self.recv_conn_win
    }

    /// The id the next stream would get.
    pub closed spec fn next_stream_id(&self) -> u32 {
        self.next_sid
    }

    /// The peer's concurrent-stream limit (0 while unknown).
    pub closed spec fn peer_stream_limit(&self) -> u32 {
        self.peer_max_concurrent
    }

    pub closed spec fn draining_now(&self) -> bool {
        self.draining
    }

    pub closed spec fn goaway_last_sid(&self) -> u32 {
        self.peer_last_goaway_sid
    }

    pub closed spec fn frame_size_out(&self) -> u32 {
        self.max_frame_size_out
    }

    /// The stream whose header block waits for CONTINUATION, if any.
    pub closed spec fn continuation_of(&self) -> Option<u32> {
        self.cont
    }

    /// No frame has arrived yet: the first one must be SETTINGS.
    pub closed spec fn awaiting_settings(&self) -> bool {
        self.need_first_settings
    }

    /// The largest frame payload this side accepts.
    pub closed spec fn frame_size_in(&self) -> u32 {
        self.max_frame_size_in
    }

    pub closed spec fn wf(&self) -> bool {
        &&& self.rx.wf()
        &&& self.streams.wf()
        &&& settings_valid(self.peer)
        &&& 16_384 <= self.max_frame_size_out <= 16_777_215
        &&& 16_384 <= self.max_frame_size_in <= 16_777_215
        &&& self.next_sid % 2 == 1
        &&& self.next_sid <= MAX_SID
        &&& self.streams.items().len() * 2 <= self.next_sid + 1 + if self.draining { 2int } else { 0int }
        &&& forall|i: int| 0 <= i < self.tx@.len() ==> tx_item_wf(#[trigger] self.tx@[i])
        &&& forall|i: int| 0 <= i < self.pending@.len() ==> (#[trigger] self.pending@[i]).data.wf()
    }

    /// The receive-buffer segments the connection holds for buffer `id`.
    pub open spec fn held(&self, id: u16) -> int {
        count_id(self.rx_segs(), id) + items_count(self.tx_items(), id) + pending_count(self.pending_items(), id)
    }

    /// The pool owns every buffer reference the connection holds.
    pub open spec fn owned_by<O: BufOps>(&self, ops: O) -> bool {
        forall|id: u16| #[trigger] ops.owners(id) >= self.held(id)
    }

    /// What every step of reading keeps: well-formed state, every buffer
    /// reference it holds still owned, and the stream-id state untouched.
    pub open spec fn kept_from<O: BufOps>(&self, before: &Self, ops_now: O, ops_before: O) -> bool {
        &&& self.wf()
        &&& forall|id: u16| #[trigger] ops_now.owners(id) - self.held(id) >= ops_before.owners(id) - before.held(id)
        &&& self.next_stream_id() == before.next_stream_id()
        &&& self.local_settings() == before.local_settings()
        &&& self.conn_key() == before.conn_key()
        &&& before.draining_now() ==> self.draining_now()
    }

    /// A connection for upstream `key`; the client preface and this side's
    /// SETTINGS are queued at once.
    pub fn new(key: ConnKey, seed: u64) -> (r: Self)
        ensures
            r.wf(),
            r.conn_key() == key,
            r.local_settings() == (Settings { enable_push: false, ..default_settings() }),
            r.peer_settings() == default_settings(),
            r.conn_send_window() == 65_535,
            r.conn_recv_window() == 65_535,
            r.next_stream_id() == 1,
            r.peer_stream_limit() == 0,
            !r.draining_now(),
            r.stream_map() == Map::<u32, UpStream>::empty(),
            r.rx_segs().len() == 0,
            r.pending_items().len() == 0,
            r.tx_items().len() == 2,
            r.tx_items()[0] matches TxItem::Raw { bytes } && bytes@ == preface_bytes(),
            is_frame(r.tx_items()[1], control_header(36, FrameType::Settings, 0, 0), settings_bytes(r.local_settings())),
    {
        let mut local = Settings::default_settings();
        local.enable_push = false;
        if local.max_concurrent_streams == 0 {
            local.max_concurrent_streams = 1024;
        }
        let limits = HeaderBlockLimits::default();
        let mut s = UpstreamH2 {
            key,
            rx: RxQueue::new(),
            tx: VecDeque::new(),
            preface_queued: false,
            need_first_settings: true,
            peer: Settings::default_settings(),
            local,
            max_frame_size_in: 16_384,
            max_frame_size_out: 16_384,
            send_conn_win: 65_535,
            recv_conn_win: 65_535,
            next_sid: 1,
            peer_max_concurrent: 0,
            draining: false,
            peer_last_goaway_sid: 0,
            streams: StreamTable::new(seed),
            hdec: HpackDecoder::new(limits),
            henc: HpackEncoder::default(),
            limits,
            cont: None,
            header_scratch: Vec::new(),
            pending: VecDeque::new(),
        };
        s.preface_queued = true;
        s.tx.push_back(TxItem::Raw { bytes: preface() });
        let mut payload: Vec<u8> = Vec::new();
        s.local.encode_into(&mut payload);
        proof {
            assert(payload@ =~= settings_bytes(s.local));
            assert(settings_bytes(s.local).len() == 36);
        }
        push_frame(&mut s.tx, FrameHeader { len: payload.len() as u32, ty: FrameType::Settings, flags: 0, stream_id: 0 }, payload);
        proof {
            assert(s.tx@[0] == s.tx@.take(1)[0]);
        }
        s
    }

    /// Adds received bytes to the read queue (an empty chunk is ignored).
    pub fn push_rx(&mut self, c: RxChunk)
        requires
            old(self).wf(),
            c.off + c.len <= u32::MAX,
            crate::h2_buf::refs_of(old(self).rx_segs()).len() + c.len <= u32::MAX,
        ensures
            final(self).wf(),
            final(self).rx_segs() == if c.len == 0 {
                old(self).rx_segs()
            } else {
                old(self).rx_segs().push(BufSeg { buf_id: c.buf_id, off: c.off, len: c.len })
            },
            final(self).tx_items() == old(self).tx_items(),
            final(self).pending_items() == old(self).pending_items(),
            final(self).stream_map() == old(self).stream_map(),
    {
        self.rx.push_chunk(c);
    }

    /// Takes the next item off the send queue.
    pub fn pop_tx(&mut self) -> (r: Option<TxItem>)
        requires
            old(self).wf(),
        ensures
            final(self).wf(),
            old(self).tx_items().len() == 0 ==> r is None && final(self).tx_items() == old(self).tx_items(),
            old(self).tx_items().len() > 0 ==> r == Some(old(self).tx_items()[0])
                && final(self).tx_items() == old(self).tx_items().drop_first(),
            r matches Some(item) ==> tx_item_wf(item),
            final(self).rx_segs() == old(self).rx_segs(),
            final(self).pending_items() == old(self).pending_items(),
            final(self).stream_map() == old(self).stream_map(),
    {
        let r = self.tx.pop_front();
        proof {
            if old(self).tx@.len() > 0 {
                assert(tx_item_wf(old(self).tx@[0]));
                assert forall|i: int| 0 <= i < self.tx@.len() implies tx_item_wf(#[trigger] self.tx@[i]) by {
                    assert(self.tx@[i] == old(self).tx@[i + 1]);
                }
            }
        }
        r
    }

    /// Whether anything waits to be sent.
    pub fn has_tx(&self) -> (r: bool)
        ensures
            r == (self.tx_items().len() > 0),
    {
        self.tx.len() > 0
    }

    /// How many streams are open on the connection.
    pub fn active_streams(&self) -> (r: u32)
        requires
            self.wf(),
        ensures
            r == self.stream_items().len(),
    {
        self.streams.len() as u32
    }

    /// Whether the connection takes no new streams.
    pub fn is_draining(&self) -> (r: bool)
        ensures
            r == self.draining_now(),
    {
        self.draining
    }

    /// The peer announced GOAWAY: no new streams from now on.
    pub fn mark_goaway(&mut self, last_sid: u32, code: H2Code)
        requires
            old(self).wf(),
        ensures
            final(self).wf(),
            final(self).draining_now(),
            final(self).goaway_last_sid() == last_sid,
            final(self).next_stream_id() == old(self).next_stream_id(),
            final(self).stream_map() == old(self).stream_map(),
            final(self).tx_items() == old(self).tx_items(),
            final(self).pending_items() == old(self).pending_items(),
            final(self).rx_segs() == old(self).rx_segs(),
            final(self).local_settings() == old(self).local_settings(),
            final(self).conn_key() == old(self).conn_key(),
    {
        self.draining = true;
        self.peer_last_goaway_sid = last_sid;
    }

    /// Resets stream `sid` with `code` (stream 0 cannot be reset).
    pub fn send_rst_stream(&mut self, sid: u32, code: H2Code) -> (r: Result<(), H2Error>)
        requires
            old(self).wf(),
        ensures
            final(self).wf(),
            sid == 0 ==> (r matches Err(e) && e.code == H2Code::ProtocolError) && *final(self) == *old(self),
            sid != 0 ==> r is Ok && queued(
                old(self).tx_items(),
                final(self).tx_items(),
                control_header(4, FrameType::RstStream, 0, sid),
                be32(code_value(code)),
            ),
            final(self).stream_map() == old(self).stream_map(),
            final(self).rx_segs() == old(self).rx_segs(),
            final(self).pending_items() == old(self).pending_items(),
    {
        if sid == 0 {
            return Err(H2Error::new(H2Code::ProtocolError, "RST_STREAM on stream 0"));
        }
        self.queue_rst_stream(sid, code);
        Ok(())
    }

    fn queue_frame(&mut self, h: FrameHeader, payload: Vec<u8>)
        requires
            old(self).wf(),
        ensures
            final(self).wf(),
            queued(old(self).tx_items(), final(self).tx_items(), h, payload@),
            forall|id: u16| #[trigger] final(self).held(id) == old(self).held(id),
            final(self).same_except_tx(old(self)),
    {
        push_frame(&mut self.tx, h, payload);
        proof {
            lemma_queued_count(old(self).tx@, self.tx@);
            assert forall|i: int| 0 <= i < self.tx@.len() implies tx_item_wf(#[trigger] self.tx@[i]) by {
                if i < old(self).tx@.len() {
                    assert(self.tx@[i] == self.tx@.take(old(self).tx@.len() as int)[i]);
                }
            }
        }
    }

    /// Everything but the send queue is the same in `self` and `other`.
    pub open spec fn same_except_tx(&self, other: &Self) -> bool {
        &&& self.stream_map() == other.stream_map()
        &&& self.stream_items() == other.stream_items()
        &&& self.conn_send_window() == other.conn_send_window()
        &&& self.conn_recv_window() == other.conn_recv_window()
        &&& self.next_stream_id() == other.next_stream_id()
        &&& self.peer_stream_limit() == other.peer_stream_limit()
        &&& self.draining_now() == other.draining_now()
        &&& self.peer_settings() == other.peer_settings()
        &&& self.local_settings() == other.local_settings()
        &&& self.conn_key() == other.conn_key()
        &&& self.pending_items() == other.pending_items()
        &&& self.rx_segs() == other.rx_segs()
        &&& self.frame_size_out() == other.frame_size_out()
        &&& self.continuation_of() == other.continuation_of()
    }

    fn queue_rst_stream(&mut self, sid: u32, code: H2Code)
        requires
            old(self).wf(),
        ensures
            final(self).wf(),
            queued(old(self).tx_items(), final(self).tx_items(), control_header(4, FrameType::RstStream, 0, sid), be32(code_value(code))),
            forall|id: u16| #[trigger] final(self).held(id) == old(self).held(id),
            final(self).same_except_tx(old(self)),
    {
        let payload = be32_bytes(code.as_u32());
        self.queue_frame(FrameHeader { len: 4, ty: FrameType::RstStream, flags: 0, stream_id: sid }, payload);
    }

    fn queue_goaway(&mut self, last_sid: u32, code: H2Code)
        requires
            old(self).wf(),
            last_sid <= MAX_SID,
        ensures
            final(self).wf(),
            queued(
                old(self).tx_items(),
                final(self).tx_items(),
                control_header(8, FrameType::Goaway, 0, 0),
                be32(last_sid) + be32(code_value(code)),
            ),
            forall|id: u16| #[trigger] final(self).held(id) == old(self).held(id),
            final(self).same_except_tx(old(self)),
    {
        let mut payload = be32_bytes(last_sid);
        let c = be32_bytes(code.as_u32());
        let ghost first = payload@;
        let mut i: usize = 0;
        while i < 4
            invariant
                i <= 4,
                c@.len() == 4,
                payload@ == first + c@.take(i as int),
            decreases 4 - i,
        {
            payload.push(c[i]);
            i = i + 1;
            proof {
                assert(payload@ =~= first + c@.take(i as int));
            }
        }
        proof {
            assert(c@.take(4) =~= c@);
        }
        self.queue_frame(FrameHeader { len: 8, ty: FrameType::Goaway, flags: 0, stream_id: 0 }, payload);
    }

    fn queue_window_update(&mut self, sid: u32, delta: u32)
        requires
            old(self).wf(),
        ensures
            final(self).wf(),
            delta == 0 ==> final(self).tx_items() == old(self).tx_items(),
            delta != 0 ==> queued(
                old(self).tx_items(),
                final(self).tx_items(),
                control_header(4, FrameType::WindowUpdate, 0, sid),
                be32((delta as int % 0x8000_0000) as u32),
            ),
            forall|id: u16| #[trigger] final(self).held(id) == old(self).held(id),
            final(self).same_except_tx(old(self)),
    {
        if delta == 0 {
            return;
        }
        proof {
            assert((delta & 0x7fff_ffff) == (delta as int % 0x8000_0000) as u32) by (bit_vector);
        }
        let payload = be32_bytes(delta & 0x7fff_ffff);
        self.queue_frame(FrameHeader { len: 4, ty: FrameType::WindowUpdate, flags: 0, stream_id: sid }, payload);
    }

    /// `self` is `before` with a GOAWAY carrying `code` queued: the way a
    /// connection error ends reading.
    pub open spec fn goaway_after(&self, before: &Self, code: H2Code) -> bool {
        queued(
            before.tx_items(),
            self.tx_items(),
            control_header(8, FrameType::Goaway, 0, 0),
            be32(0) + be32(code_value(code)),
        )
    }

    /// Queues GOAWAY with the error's code and reports the error.
    fn fail<S: UpstreamSink>(&mut self, e: H2Error, sink: &mut S)
        requires
            old(self).wf(),
        ensures
            final(self).wf(),
            final(self).goaway_after(old(self), e.code),
            up_events_extend(old(sink).events(), final(sink).events()),
            final(sink).events() == old(sink).events().push(UpEvent::ConnError { up: old(self).conn_key(), err: e }),
            forall|id: u16| #[trigger] final(self).held(id) == old(self).held(id),
            final(self).same_except_tx(old(self)),
    {
        self.queue_goaway(0, e.code);
        sink.on_conn_error(self.key, e);
    }
}

/// One frame read: `before`'s first waiting frame (read through
/// `ops_before`) was whole and admitted and has been handled.  When reading
/// goes on, exactly its bytes have left the input and what the sink was
/// handed is that of its type: the payload chain of DATA (padding removed,
/// the same buffers), the response of a completed header block, the reset or
/// GOAWAY the peer sent, nothing otherwise.  When handling stopped reading,
/// at most one connection error was handed on.
pub open spec fn up_frame_step<O: BufOps>(
    before: UpstreamH2,
    after: UpstreamH2,
    ops_before: O,
    ev_before: Seq<UpEvent>,
    ev_after: Seq<UpEvent>,
    go_on: bool,
) -> bool {
    let r = crate::h2_buf::refs_of(before.rx_segs());
    let h = rx_prefix(ops_before, before.rx_segs(), 9);
    let n = parsed_len(h);
    let bytes = rx_prefix(ops_before, before.rx_segs(), 9 + n);
    let ty = frame_type_of_byte(h[3]);
    let fl = h[4];
    let sid = parsed_stream_id(h) as u32;
    let key = before.conn_key();
    &&& up_events_extend(ev_before, ev_after)
    &&& go_on ==> crate::h2_buf::refs_of(after.rx_segs()) == r.skip(9 + n)
    &&& go_on && ty == FrameType::Data ==> up_data_event(
        ev_before,
        ev_after,
        key,
        sid,
        fl & FLAG_END_STREAM != 0,
        if fl & FLAG_PADDED == 0 {
            r.subrange(9, 9 + n)
        } else {
            r.subrange(10, 9 + n - bytes[9])
        },
    )
    &&& go_on && (ty == FrameType::Headers || ty == FrameType::Continuation) && fl & FLAG_END_HEADERS != 0
        ==> up_headers_event(ev_before, ev_after, key, sid, ty == FrameType::Headers && fl & FLAG_END_STREAM != 0)
    &&& go_on && (ty == FrameType::Headers || ty == FrameType::Continuation) && fl & FLAG_END_HEADERS == 0
        ==> ev_after == ev_before && after.continuation_of() == Some(sid)
    &&& go_on && ty == FrameType::RstStream ==> ev_after == ev_before.push(
        UpEvent::Reset { up: key, up_sid: sid, code: code_of_value(be32_value(bytes.subrange(9, 13))) },
    ) && after.stream_map() == before.stream_map().remove(sid)
    &&& go_on && ty == FrameType::Goaway ==> ev_after == ev_before.push(
        UpEvent::Goaway {
            up: key,
            last_sid: u31_of(bytes.subrange(9, 13)),
            code: code_of_value(be32_value(bytes.subrange(13, 17))),
        },
    ) && after.draining_now() && after.goaway_last_sid() == u31_of(bytes.subrange(9, 13))
    &&& go_on && ty == FrameType::Settings && fl & FLAG_ACK == 0 ==> after.peer_settings()
        == crate::h2_settings::apply_records(before.peer_settings(), bytes.subrange(9, 9 + n)).0
    &&& go_on && ty == FrameType::Ping && fl & FLAG_ACK == 0 ==> after.tx_items().len() > before.tx_items().len()
        && is_frame(after.tx_items()[before.tx_items().len() as int], control_header(8, FrameType::Ping, FLAG_ACK, 0), bytes.subrange(9, 17))
    &&& go_on && ty == FrameType::WindowUpdate ==> u31_of(bytes.subrange(9, 13)) != 0
    &&& go_on && !(ty == FrameType::Data || ty == FrameType::Headers || ty == FrameType::Continuation
        || ty == FrameType::RstStream || ty == FrameType::Goaway) ==> ev_after == ev_before
    &&& !go_on ==> ev_after == ev_before || up_some_error(ev_before, ev_after, key)
}

/// What reading one frame did (`r` says how it ended): a frame not whole yet
/// leaves everything as it was; a bad header, a frame other than the
/// awaited CONTINUATION and a first frame other than SETTINGS are
/// connection errors; an admitted frame is one `up_frame_step`.
pub open spec fn up_frame_read<O: BufOps>(
    before: UpstreamH2,
    after: UpstreamH2,
    ops_before: O,
    ev_before: Seq<UpEvent>,
    ev_after: Seq<UpEvent>,
    r: FrameRead,
) -> bool {
    let rl = crate::h2_buf::refs_of(before.rx_segs()).len();
    let h = rx_prefix(ops_before, before.rx_segs(), 9);
    let n = parsed_len(h);
    let ty = frame_type_of_byte(h[3]);
    let fits = n <= effective_max_frame(before.frame_size_in());
    &&& (r is Incomplete <==> rl < 9 || (fits && rl < 9 + n))
    &&& r is Incomplete ==> after == before && ev_after == ev_before
    &&& rl >= 9 && !fits ==> r is Stopped && up_failed(before, after, ev_before, ev_after, H2Code::FrameSizeError)
    &&& rl >= 9 && fits && rl >= 9 + n && before.continuation_of() is Some && (ty != FrameType::Continuation
        || parsed_stream_id(h) != before.continuation_of()->0)
        ==> r is Stopped && up_failed(before, after, ev_before, ev_after, H2Code::ProtocolError)
    &&& rl >= 9 && fits && rl >= 9 + n && before.continuation_of() is None && before.awaiting_settings()
        && ty != FrameType::Settings ==> r is Stopped && up_failed(before, after, ev_before, ev_after, H2Code::ProtocolError)
    &&& before.first_frame_admitted(ops_before) ==> up_frame_step(before, after, ops_before, ev_before, ev_after, r is Read)
}

/// Frame after frame was read: each entry is the connection, the pool and
/// what the sink had been handed when a frame was read, and each next entry
/// is what reading it left.
pub open spec fn up_frames_read<O: BufOps>(tr: Seq<(UpstreamH2, O, Seq<UpEvent>)>) -> bool {
    forall|k: int| 0 <= k < tr.len() - 1 ==> #[trigger] up_frame_read(
        tr[k].0,
        tr[k + 1].0,
        tr[k].1,
        tr[k].2,
        tr[k + 1].2,
        FrameRead::Read,
    )
}

/// A run of `pump`: the frames of `tr` were read in turn, at most 128, and
/// reading ended at the last entry either because 128 frames were read or
/// with the frame read there not being whole or stopping reading, leaving
/// `after` and the events `ev_after`.
pub open spec fn up_pump_trace<O: BufOps>(after: UpstreamH2, ev_after: Seq<UpEvent>, tr: Seq<(UpstreamH2, O, Seq<UpEvent>)>) -> bool {
    &&& 1 <= tr.len() <= 129
    &&& up_frames_read(tr)
    &&& {
        ||| tr.len() == 129 && after == tr.last().0 && ev_after == tr.last().2
        ||| up_frame_read(tr.last().0, after, tr.last().1, tr.last().2, ev_after, FrameRead::Incomplete)
        ||| up_frame_read(tr.last().0, after, tr.last().1, tr.last().2, ev_after, FrameRead::Stopped)
    }
}

/// The stream table after `sent` bytes of stream `sid` went out.
pub open spec fn up_after_send(m: Map<u32, UpStream>, sid: u32, sent: int) -> Map<u32, UpStream> {
    if m.contains_key(sid) && sent > 0 {
        m.insert(sid, UpStream { send_win: (m[sid].send_win - sent) as i64, ..m[sid] })
    } else {
        m
    }
}

proof fn lemma_up_after_send_compose(m: Map<u32, UpStream>, sid: u32, a: int, b: int)
    requires
        m.contains_key(sid),
        0 <= a,
        0 < b,
        a + b <= m[sid].send_win,
    ensures
        up_after_send(up_after_send(m, sid, a), sid, b) == up_after_send(m, sid, a + b),
{
    let l = up_after_send(up_after_send(m, sid, a), sid, b);
    let r = up_after_send(m, sid, a + b);
    assert(l[sid] == r[sid]);
    assert(l =~= r);
}

impl UpstreamH2 {
    /// Whether a new stream may be opened: not draining, and below the
    /// peer's concurrent-stream limit when it is known.
    pub fn can_open_stream(&self) -> (r: bool)
        requires
            self.wf(),
        ensures
            r == (!self.draining_now() && (self.peer_stream_limit() == 0
                || self.stream_items().len() < self.peer_stream_limit())),
    {
        if self.draining {
            return false;
        }
        if self.peer_max_concurrent == 0 {
            return true;
        }
        self.active_streams() < self.peer_max_concurrent
    }

    /// Opens a stream for downstream stream `down` and returns its id: the
    /// next odd id; once ids run out the connection drains.
    pub fn open_stream(&mut self, down: DownLink) -> (r: Result<u32, H2Error>)
        requires
            old(self).wf(),
        ensures
            final(self).wf(),
            !(!old(self).draining_now() && (old(self).peer_stream_limit() == 0
                || old(self).stream_items().len() < old(self).peer_stream_limit()))
                ==> (r matches Err(e) && e.code == H2Code::RefusedStream) && *final(self) == *old(self),
            r matches Ok(sid) ==> {
                &&& sid == old(self).next_stream_id()
                &&& sid % 2 == 1
                &&& final(self).stream_map() == old(self).stream_map().insert(sid, final(self).stream_map()[sid])
                &&& final(self).stream_map()[sid].sid == sid
                &&& final(self).stream_map()[sid].state == UpStreamState::Open
                &&& final(self).stream_map()[sid].send_win == old(self).peer_settings().initial_window_size
                &&& final(self).stream_map()[sid].recv_win == old(self).local_settings().initial_window_size
                &&& final(self).stream_map()[sid].down == down
            },
            r is Ok || (r matches Err(e) && (e.code == H2Code::RefusedStream || e.code == H2Code::InternalError)),
            final(self).next_stream_id() == old(self).next_stream_id() || final(self).next_stream_id()
                == old(self).next_stream_id() + 2,
            final(self).next_stream_id() == old(self).next_stream_id() ==> final(self).draining_now() || r is Err,
            old(self).draining_now() ==> final(self).draining_now(),
            final(self).tx_items() == old(self).tx_items(),
            final(self).pending_items() == old(self).pending_items(),
            final(self).rx_segs() == old(self).rx_segs(),
            final(self).conn_send_window() == old(self).conn_send_window(),
            final(self).local_settings() == old(self).local_settings(),
            final(self).conn_key() == old(self).conn_key(),
    {
        if !self.can_open_stream() {
            return Err(H2Error::new(H2Code::RefusedStream, "upstream max concurrent streams reached or draining"));
        }
        let sid = self.next_sid;
        if sid == 0 || sid % 2 == 0 || sid > MAX_SID {
            self.draining = true;
            return Err(H2Error::new(H2Code::ProtocolError, "upstream stream id exhausted"));
        }
        let next = sid.wrapping_add(2);
        if next == 0 || next > MAX_SID {
            self.draining = true;
        } else {
            self.next_sid = next;
        }
        let init_send = self.peer.initial_window_size;
        let init_recv = self.local.initial_window_size;
        let st = UpStream::new(sid, init_send, init_recv, down);
        if !self.streams.insert(st) {
            return Err(H2Error::new(H2Code::InternalError, "upstream stream insert failed"));
        }
        Ok(sid)
    }

    /// The downstream stream that upstream stream `up_sid` serves.
    pub fn downlink(&self, up_sid: u32) -> (r: Option<DownLink>)
        requires
            self.wf(),
        ensures
            r == if self.stream_map().contains_key(up_sid) {
                Some(self.stream_map()[up_sid].down)
            } else {
                None
            },
    {
        match self.streams.get(up_sid) {
            Some(s) => Some(s.down),
            None => None,
        }
    }

    /// Forgets stream `up_sid`.
    pub fn close_stream(&mut self, up_sid: u32)
        requires
            old(self).wf(),
        ensures
            final(self).wf(),
            final(self).stream_map() == old(self).stream_map().remove(up_sid),
            final(self).tx_items() == old(self).tx_items(),
            final(self).pending_items() == old(self).pending_items(),
            final(self).rx_segs() == old(self).rx_segs(),
            final(self).next_stream_id() == old(self).next_stream_id(),
            final(self).draining_now() == old(self).draining_now(),
            final(self).local_settings() == old(self).local_settings(),
            final(self).conn_key() == old(self).conn_key(),
    {
        let _ = self.streams.remove(up_sid);
    }

    /// Queues the request HEADERS of stream `up_sid`, HPACK-encoded and cut
    /// to the peer's frame size.
    pub fn send_request_headers(&mut self, up_sid: u32, end_stream: bool, headers: Vec<Header>) -> (r: Result<(), H2Error>)
        requires
            old(self).wf(),
        ensures
            final(self).wf(),
            !old(self).stream_map().contains_key(up_sid) ==> (r matches Err(e) && e.code == H2Code::StreamClosed)
                && final(self).tx_items() == old(self).tx_items(),
            old(self).stream_map().contains_key(up_sid) ==> r is Ok && exists|block: Seq<u8>| queued_all(
                old(self).tx_items(),
                final(self).tx_items(),
                header_frames(up_sid, end_stream, block.len(), old(self).frame_size_out() as nat),
                block,
            ),
            forall|id: u16| #[trigger] final(self).held(id) == old(self).held(id),
            final(self).same_except_tx(old(self)),
    {
        if self.streams.get(up_sid).is_none() {
            return Err(H2Error::new(H2Code::StreamClosed, "send headers on unknown upstream stream"));
        }
        let block = self.henc.encode_headers(headers.as_slice());
        let ghost b = block@;
        let ghost t0 = self.tx@;
        push_headers_block(&mut self.tx, self.max_frame_size_out, up_sid, end_stream, block);
        proof {
            let fs = header_frames(up_sid, end_stream, b.len(), self.max_frame_size_out as nat);
            assert forall|i: int| 0 <= i < self.tx@.len() implies tx_item_wf(#[trigger] self.tx@[i]) by {
                if i < t0.len() {
                    assert(self.tx@[i] == self.tx@.take(t0.len() as int)[i]);
                } else {
                    assert(is_frame(self.tx@[t0.len() + (i - t0.len())], fs[i - t0.len()].0,
                        b.subrange(fs[i - t0.len()].1.0 as int, (fs[i - t0.len()].1.0 + fs[i - t0.len()].1.1) as int)));
                }
            }
            lemma_frames_hold_nothing(t0, self.tx@, fs, b);
        }
        Ok(())
    }

    /// Returns `bytes` of receive window to the peer once a response body
    /// has been forwarded: to stream `sid` when it is open, and to the
    /// connection, each with a WINDOW_UPDATE.
    pub fn credit_recv_window(&mut self, sid: u32, bytes: u32)
        requires
            old(self).wf(),
        ensures
            final(self).wf(),
            bytes == 0 ==> *final(self) == *old(self),
            bytes != 0 ==> {
                &&& final(self).conn_recv_window() == sat_i64(old(self).conn_recv_window() + bytes)
                &&& final(self).stream_map() == if old(self).stream_map().contains_key(sid) {
                    old(self).stream_map().insert(sid, UpStream {
                        recv_win: sat_i64(old(self).stream_map()[sid].recv_win + bytes),
                        ..old(self).stream_map()[sid]
                    })
                } else {
                    old(self).stream_map()
                }
                &&& final(self).tx_items().len() == old(self).tx_items().len() + if old(self).stream_map().contains_key(sid) {
                    2int
                } else {
                    1int
                }
            },
            forall|id: u16| #[trigger] final(self).held(id) == old(self).held(id),
            final(self).conn_send_window() == old(self).conn_send_window(),
            final(self).pending_items() == old(self).pending_items(),
            final(self).rx_segs() == old(self).rx_segs(),
            final(self).next_stream_id() == old(self).next_stream_id(),
            final(self).draining_now() == old(self).draining_now(),
            final(self).local_settings() == old(self).local_settings(),
            final(self).conn_key() == old(self).conn_key(),
    {
        if bytes == 0 {
            return;
        }
        proof {
            self.streams.lemma_sids_match();
        }
        let found = match self.streams.get_mut(sid) {
            Some(st) => {
                st.recv_win = add_i64(st.recv_win, bytes as i64);
                true
            },
            None => false,
        };
        if found {
            self.queue_window_update(sid, bytes);
        }
        self.recv_conn_win = add_i64(self.recv_conn_win, bytes as i64);
        self.queue_window_update(0, bytes);
    }
}

/// Header frames carry copied payloads, so they hold no buffer.
proof fn lemma_frames_hold_nothing(
    t0: Seq<TxItem>,
    t1: Seq<TxItem>,
    fs: Seq<(FrameHeader, (nat, nat))>,
    b: Seq<u8>,
)
    requires
        queued_all(t0, t1, fs, b),
    ensures
        forall|id: u16| #[trigger] items_count(t1, id) == items_count(t0, id),
    decreases fs.len(),
{
    if fs.len() > 0 {
        let t_mid = t1.drop_last();
        let f_mid = fs.drop_last();
        assert(queued_all(t0, t_mid, f_mid, b)) by {
            assert(t_mid.take(t0.len() as int) =~= t1.take(t0.len() as int));
            assert forall|i: int| 0 <= i < f_mid.len() implies is_frame(
                #[trigger] t_mid[t0.len() + i],
                f_mid[i].0,
                b.subrange(f_mid[i].1.0 as int, (f_mid[i].1.0 + f_mid[i].1.1) as int),
            ) by {
                assert(t_mid[t0.len() + i] == t1[t0.len() + i]);
                assert(f_mid[i] == fs[i]);
            }
        }
        lemma_frames_hold_nothing(t0, t_mid, f_mid, b);
        assert(is_frame(t1[t0.len() + (fs.len() - 1)], fs[fs.len() - 1].0,
            b.subrange(fs[fs.len() - 1].1.0 as int, (fs[fs.len() - 1].1.0 + fs[fs.len() - 1].1.1) as int)));
        assert(t1.last() == t1[t0.len() + (fs.len() - 1)]);
        assert forall|id: u16| #[trigger] items_count(t1, id) == items_count(t0, id) by {
            assert(items_count(t1, id) == items_count(t1.drop_last(), id) + item_count(t1.last(), id));
            assert(item_count(t1.last(), id) == 0);
            assert(items_count(t_mid, id) == items_count(t0, id));
        }
    } else {
        assert(t1 =~= t0) by {
            assert(t1.take(t0.len() as int) == t0);
        }
    }
}

impl UpstreamH2 {
    /// Everything but what sending changes is the same in `self` and `other`.
    pub open spec fn same_except_sending(&self, other: &Self) -> bool {
        &&& self.conn_recv_window() == other.conn_recv_window()
        &&& self.pending_items() == other.pending_items()
        &&& self.rx_segs() == other.rx_segs()
        &&& self.peer_settings() == other.peer_settings()
        &&& self.local_settings() == other.local_settings()
        &&& self.frame_size_out() == other.frame_size_out()
        &&& self.next_stream_id() == other.next_stream_id()
        &&& self.peer_stream_limit() == other.peer_stream_limit()
        &&& self.draining_now() == other.draining_now()
        &&& self.goaway_last_sid() == other.goaway_last_sid()
        &&& self.conn_key() == other.conn_key()
    }

    /// The send window of stream `sid` as far as sending goes (0 when the
    /// stream is gone).
    pub open spec fn stream_send_window(&self, sid: u32) -> int {
        if self.stream_map().contains_key(sid) {
            self.stream_map()[sid].send_win as int
        } else {
            0
        }
    }

    /// Sends the first `want` bytes of `data` as one DATA frame of stream
    /// `sid`, charging both send windows; the frame that empties `data`
    /// carries END_STREAM when asked.  Returns the part of `credit` left for
    /// what remains.
    fn send_data_piece<O: BufOps>(
        &mut self,
        sid: u32,
        end_stream: bool,
        data: &mut BufChain,
        credit: Option<Credit>,
        want: u32,
        remain_after: u32,
        ops: &mut O,
    ) -> (rest: Option<Credit>)
        requires
            old(self).wf(),
            old(data).wf(),
            0 < want <= old(data).refs().len(),
            remain_after == old(data).refs().len() - want,
            want <= old(self).frame_size_out(),
            old(self).stream_map().contains_key(sid),
            want <= old(self).stream_map()[sid].send_win,
            want <= old(self).conn_send_window(),
        ensures
            final(self).wf(),
            final(data).wf(),
            final(data).refs() == old(data).refs().skip(want as int),
            final(self).conn_send_window() == old(self).conn_send_window() - want,
            final(self).tx_items().len() == old(self).tx_items().len() + 1,
            final(self).tx_items().drop_last() == old(self).tx_items(),
            is_data_frame(final(self).tx_items().last(), sid, old(self).frame_size_out() as nat),
            data_refs(seq![final(self).tx_items().last()]) == old(data).refs().take(want as int),
            final(self).stream_map() == up_after_send(old(self).stream_map(), sid, want as int),
            final(self).stream_items().len() == old(self).stream_items().len(),
            rest == credit_left(credit, want as int, remain_after as int),
            item_credit(final(self).tx_items().last()) == min_int(want as int, credit_amount(credit)),
            forall|id: u16|
                #[trigger] final(ops).owners(id) - final(self).held(id) - count_id(final(data).segs(), id)
                    == old(ops).owners(id) - old(self).held(id) - count_id(old(data).segs(), id),
            final(self).same_except_sending(old(self)),
    {
        proof {
            self.streams.lemma_sids_match();
        }
        let ghost m0 = self.streams.by_sid();
        let ghost t0 = self.tx@;
        let piece = data.take_prefix(want, ops);
        let is_last = data.is_empty() && end_stream;
        self.send_conn_win = self.send_conn_win - want as i64;
        match self.streams.get_mut(sid) {
            Some(st) => {
                st.send_win = st.send_win - want as i64;
            },
            None => {},
        }
        proof {
            assert(self.streams.by_sid() =~= up_after_send(m0, sid, want as int));
        }
        let (c1, c2) = split_credit(credit, want, remain_after);
        let fl: u8 = if is_last { FLAG_END_STREAM } else { 0 };
        let mut hdr = [0u8; 9];
        let fh = FrameHeader { len: want, ty: FrameType::Data, flags: fl, stream_id: sid };
        fh.write_into(&mut hdr);
        let ghost item = TxItem::FrameData { header: hdr, payload: piece, credit: c1 };
        self.tx.push_back(TxItem::FrameData { header: hdr, payload: piece, credit: c1 });
        proof {
            assert(self.tx@ == t0.push(item));
            assert(self.tx@.drop_last() =~= t0);
            assert(is_data_frame(item, sid, old(self).frame_size_out() as nat));
            assert(item_credit(item) == min_int(want as int, credit_amount(credit)));
            assert(seq![item].drop_last() =~= Seq::<TxItem>::empty());
            assert(data_refs(Seq::<TxItem>::empty()) == Seq::<(u16, int)>::empty());
            assert(seq![item].last() == item);
            assert(data_refs(seq![item]) == data_refs(Seq::<TxItem>::empty()) + piece.refs());
            assert(data_refs(seq![item]) =~= piece.refs());
            assert forall|id: u16| #[trigger] items_count(self.tx@, id) == items_count(t0, id) + count_id(piece.segs(), id) by {
                assert(self.tx@.drop_last() == t0);
            }
            assert forall|i: int| 0 <= i < self.tx@.len() implies tx_item_wf(#[trigger] self.tx@[i]) by {
                if i < t0.len() {
                    assert(self.tx@[i] == t0[i]);
                }
            }
        }
        c2
    }
}

impl UpstreamH2 {
    /// Sends as much of `data` on stream `sid` as the stream and connection
    /// send windows allow, in DATA frames no larger than the peer's frame
    /// size; the frame that empties `data` carries END_STREAM when asked.
    /// What stays in `data` waits for window; the result is the part of
    /// `credit` that goes with it.  The bytes of a stream that is gone are
    /// given back to the pool.
    #[verifier::rlimit(40)]
    #[verifier::spinoff_prover]
    fn try_queue_data<O: BufOps>(&mut self, sid: u32, end_stream: bool, data: &mut BufChain, credit: Option<Credit>, ops: &mut O) -> (r: Option<Credit>)
        requires
            old(self).wf(),
            old(data).wf(),
        ensures
            final(self).wf(),
            final(data).wf(),
            old(data).refs().len() > 0 && !old(self).stream_map().contains_key(sid) ==> {
                &&& r is None
                &&& final(data).refs().len() == 0
                &&& final(self).tx_items() == old(self).tx_items()
                &&& final(self).stream_map() == old(self).stream_map()
                &&& final(self).conn_send_window() == old(self).conn_send_window()
            },
            old(data).refs().len() == 0 || old(self).stream_map().contains_key(sid) ==> ({
                let sent = old(data).refs().len() - final(data).refs().len();
                let avail = if old(self).stream_send_window(sid) <= old(self).conn_send_window() {
                    old(self).stream_send_window(sid)
                } else {
                    old(self).conn_send_window() as int
                };
                &&& 0 <= sent
                &&& sent > 0 ==> sent <= avail
                &&& 0 < avail <= 0x7fff_ffff ==> sent == (if old(data).refs().len() <= avail {
                    old(data).refs().len() as int
                } else {
                    avail
                })
                &&& final(data).refs() == old(data).refs().skip(sent)
                &&& final(self).conn_send_window() == old(self).conn_send_window() - sent
                &&& final(self).tx_items().len() >= old(self).tx_items().len()
                &&& final(self).tx_items().take(old(self).tx_items().len() as int) == old(self).tx_items()
                &&& data_refs(final(self).tx_items().skip(old(self).tx_items().len() as int))
                    == old(data).refs().take(sent)
                &&& forall|i: int| old(self).tx_items().len() <= i < final(self).tx_items().len()
                    ==> is_data_frame(#[trigger] final(self).tx_items()[i], sid, old(self).frame_size_out() as nat)
                &&& final(self).stream_map() == up_after_send(old(self).stream_map(), sid, sent)
                &&& r == credit_left(credit, sent, final(data).refs().len() as int)
                &&& items_credit(final(self).tx_items().skip(old(self).tx_items().len() as int)) == min_int(
                    sent,
                    credit_amount(credit),
                )
            }),
            final(self).stream_items().len() == old(self).stream_items().len(),
            forall|id: u16|
                #[trigger] final(ops).owners(id) - final(self).held(id) - count_id(final(data).segs(), id)
                    == old(ops).owners(id) - old(self).held(id) - count_id(old(data).segs(), id),
            final(self).same_except_sending(old(self)),
    {
        if data.is_empty() {
            return credit;
        }
        proof {
            self.streams.lemma_sids_match();
        }
        if self.streams.get(sid).is_none() {
            data.release(ops);
            return None;
        }
        let ghost t0 = self.tx@;
        let ghost c0 = credit;
        let ghost d0 = data.refs();
        let ghost m0 = self.streams.by_sid();
        let ghost n0 = self.streams.items().len();
        let ghost avail0: int = if old(self).stream_send_window(sid) <= old(self).conn_send_window() {
            old(self).stream_send_window(sid)
        } else {
            old(self).conn_send_window() as int
        };
        let mut credit = credit;
        proof {
            assert(t0.skip(t0.len() as int) =~= Seq::<TxItem>::empty());
            assert(d0.take(0) =~= Seq::<(u16, int)>::empty());
            assert(d0.skip(0) =~= d0);
            assert(up_after_send(m0, sid, 0) == m0);
        }
        loop
            invariant_except_break
                self.wf(),
                data.wf(),
                m0 == old(self).stream_map(),
                m0.contains_key(sid),
                n0 == self.streams.items().len(),
                avail0 == (if old(self).stream_send_window(sid) <= old(self).conn_send_window() {
                    old(self).stream_send_window(sid)
                } else {
                    old(self).conn_send_window() as int
                }),
                d0.len() > 0,
                t0.len() <= self.tx@.len(),
                self.tx@.take(t0.len() as int) == t0,
                data_refs(self.tx@.skip(t0.len() as int)) == d0.take(d0.len() - data.refs().len()),
                data.refs() == d0.skip(d0.len() - data.refs().len()),
                data.refs().len() <= d0.len(),
                forall|i: int| t0.len() <= i < self.tx@.len() ==> is_data_frame(#[trigger] self.tx@[i], sid, old(self).frame_size_out() as nat),
                self.send_conn_win == old(self).conn_send_window() - (d0.len() - data.refs().len()),
                d0.len() - data.refs().len() > 0 ==> d0.len() - data.refs().len() <= avail0,
                self.streams.by_sid() == up_after_send(m0, sid, d0.len() - data.refs().len()),
                credit == credit_left(c0, d0.len() - data.refs().len(), data.refs().len() as int),
                items_credit(self.tx@.skip(t0.len() as int)) == min_int(d0.len() - data.refs().len(), credit_amount(c0)),
                forall|id: u16|
                    #[trigger] ops.owners(id) - self.held(id) - count_id(data.segs(), id)
                        == old(ops).owners(id) - old(self).held(id) - count_id(old(data).segs(), id),
                self.same_except_sending(old(self)),
            ensures
                self.wf(),
                data.wf(),
                n0 == self.streams.items().len(),
                t0.len() <= self.tx@.len(),
                self.tx@.take(t0.len() as int) == t0,
                data_refs(self.tx@.skip(t0.len() as int)) == d0.take(d0.len() - data.refs().len()),
                data.refs() == d0.skip(d0.len() - data.refs().len()),
                data.refs().len() <= d0.len(),
                forall|i: int| t0.len() <= i < self.tx@.len() ==> is_data_frame(#[trigger] self.tx@[i], sid, old(self).frame_size_out() as nat),
                self.send_conn_win == old(self).conn_send_window() - (d0.len() - data.refs().len()),
                d0.len() - data.refs().len() > 0 ==> d0.len() - data.refs().len() <= avail0,
                0 < avail0 <= 0x7fff_ffff ==> (data.refs().len() == 0 || d0.len() - data.refs().len() == avail0),
                self.streams.by_sid() == up_after_send(m0, sid, d0.len() - data.refs().len()),
                credit == credit_left(c0, d0.len() - data.refs().len(), data.refs().len() as int),
                items_credit(self.tx@.skip(t0.len() as int)) == min_int(d0.len() - data.refs().len(), credit_amount(c0)),
                forall|id: u16|
                    #[trigger] ops.owners(id) - self.held(id) - count_id(data.segs(), id)
                        == old(ops).owners(id) - old(self).held(id) - count_id(old(data).segs(), id),
                self.same_except_sending(old(self)),
            decreases data.refs().len(),
        {
            if data.is_empty() {
                break;
            }
            proof {
                self.streams.lemma_sids_match();
            }
            let st_send: i64 = match self.streams.get(sid) {
                Some(st) => st.send_win,
                None => 0,
            };
            let conn_send = self.send_conn_win;
            let avail = if st_send <= conn_send { st_send } else { conn_send };
            proof {
                let sent_old: int = d0.len() - data.refs().len();
                let cur_map = self.streams.by_sid();
                assert(cur_map.contains_key(sid));
                if sent_old > 0 {
                    assert(cur_map[sid].send_win == m0[sid].send_win - sent_old);
                } else {
                    assert(cur_map == m0);
                }
                assert(avail == avail0 - sent_old);
            }
            if avail <= 0 {
                break;
            }
            let maxf: u32 = if self.max_frame_size_out < 16_777_215 { self.max_frame_size_out } else { 16_777_215 };
            let avail32: u32 = #[verifier::truncate] (avail as u32);
            let total = data.total_len();
            let mut want: u32 = if avail32 <= maxf { avail32 } else { maxf };
            if total < want {
                want = total;
            }
            if want == 0 {
                break;
            }
            let remain_after = total - want;
            let ghost sent_old: int = d0.len() - data.refs().len();
            let ghost cur_map = self.streams.by_sid();
            let ghost before_tx = self.tx@;
            let ghost before_data = data.refs();
            let ghost cred_old = credit;
            proof {
                assert(cur_map.contains_key(sid));
                assert(avail0 <= m0[sid].send_win);
                if sent_old > 0 {
                    assert(cur_map[sid].send_win == m0[sid].send_win - sent_old);
                } else {
                    assert(cur_map == m0);
                }
                assert(avail == avail0 - sent_old);
            }
            credit = self.send_data_piece(sid, end_stream, data, credit, want, remain_after, ops);
            proof {
                let sent_new: int = sent_old + want;
                lemma_up_after_send_compose(m0, sid, sent_old, want as int);
                lemma_credit_left_compose(c0, sent_old, before_data.len() as int, want as int, remain_after as int);
                assert(data.refs() =~= d0.skip(sent_new));
                assert(self.tx@.take(t0.len() as int) =~= t0);
                let item = self.tx@.last();
                assert(self.tx@.skip(t0.len() as int) =~= before_tx.skip(t0.len() as int).push(item));
                let suf = before_tx.skip(t0.len() as int).push(item);
                assert(suf =~= before_tx.skip(t0.len() as int) + seq![item]);
                lemma_items_count_append(before_tx.skip(t0.len() as int), seq![item], 0);
                assert(suf.drop_last() =~= before_tx.skip(t0.len() as int));
                assert(d0.take(sent_new) =~= d0.take(sent_old) + before_data.take(want as int));
                assert forall|i: int| t0.len() <= i < self.tx@.len() implies is_data_frame(#[trigger] self.tx@[i], sid, old(self).frame_size_out() as nat) by {
                    if i < before_tx.len() {
                        assert(self.tx@[i] == before_tx[i]);
                    }
                }
            }
        }
        credit
    }
}

impl UpstreamH2 {
    /// Sends request body bytes on stream `up_sid`: as much as the send
    /// windows allow now, the rest queued, with what is left of `credit`, to
    /// wait for window.  Body bytes of a stream that is gone are given back
    /// to the pool. The credit is shared out as by
    /// `DownstreamH2::send_response_data`, none lost.
    pub fn send_request_data<O: BufOps>(&mut self, up_sid: u32, end_stream: bool, data: BufChain, credit: Option<Credit>, ops: &mut O) -> (r: Result<(), H2Error>)
        requires
            old(self).wf(),
            data.wf(),
        ensures
            r is Ok,
            final(self).wf(),
            forall|id: u16|
                #[trigger] final(ops).owners(id) - final(self).held(id) == old(ops).owners(id) - old(
                    self,
                ).held(id) - count_id(data.segs(), id),
            !old(self).stream_map().contains_key(up_sid) ==> final(self).tx_items() == old(self).tx_items()
                && final(self).pending_items() == old(self).pending_items()
                && final(self).stream_map() == old(self).stream_map()
                && final(self).conn_send_window() == old(self).conn_send_window(),
            old(self).stream_map().contains_key(up_sid) ==> ({
                let waiting: int = if final(self).pending_items().len() > old(self).pending_items().len() {
                    final(self).pending_items().last().data.refs().len() as int
                } else {
                    0
                };
                let sent = data.refs().len() - waiting;
                &&& 0 <= sent
                &&& final(self).pending_items().len() > old(self).pending_items().len() ==> {
                    let p = final(self).pending_items().last();
                    &&& p.sid == up_sid
                    &&& p.end_stream == end_stream
                    &&& p.data.refs() == data.refs().skip(sent)
                    &&& p.data.refs().len() > 0
                    &&& p.credit == credit_left(credit, sent, waiting)
                }
                &&& final(self).tx_items().take(old(self).tx_items().len() as int) == old(self).tx_items()
                &&& data_refs(final(self).tx_items().skip(old(self).tx_items().len() as int)) == data.refs().take(sent)
                &&& forall|i: int| old(self).tx_items().len() <= i < final(self).tx_items().len()
                    ==> is_data_frame(#[trigger] final(self).tx_items()[i], up_sid, old(self).frame_size_out() as nat)
                &&& final(self).stream_map() == up_after_send(old(self).stream_map(), up_sid, sent)
                &&& final(self).conn_send_window() == old(self).conn_send_window() - sent
                &&& items_credit(final(self).tx_items().skip(old(self).tx_items().len() as int)) + credit_amount(
                    if waiting > 0 {
                        final(self).pending_items().last().credit
                    } else {
                        None
                    },
                ) == if waiting > 0 {
                    credit_amount(credit)
                } else {
                    min_int(data.refs().len() as int, credit_amount(credit))
                }
            }),
            final(self).pending_items().take(old(self).pending_items().len() as int) == old(self).pending_items(),
            final(self).pending_items().len() <= old(self).pending_items().len() + 1,
            final(self).rx_segs() == old(self).rx_segs(),
            final(self).conn_recv_window() == old(self).conn_recv_window(),
            final(self).next_stream_id() == old(self).next_stream_id(),
            final(self).draining_now() == old(self).draining_now(),
            final(self).local_settings() == old(self).local_settings(),
            final(self).conn_key() == old(self).conn_key(),
    {
        let mut data = data;
        proof {
            self.streams.lemma_sids_match();
        }
        if self.streams.get(up_sid).is_none() {
            data.release(ops);
            return Ok(());
        }
        let ghost p0 = self.pending@;
        let ghost d0 = data.refs();
        let rem_credit = self.try_queue_data(up_sid, end_stream, &mut data, credit, ops);
        if !data.is_empty() {
            self.pending.push_back(PendingData { sid: up_sid, end_stream, data, credit: rem_credit });
            proof {
                assert(self.pending@.drop_last() == p0);
                assert(self.pending@.take(p0.len() as int) =~= p0);
                assert forall|id: u16| #[trigger] pending_count(self.pending@, id) == pending_count(p0, id) + count_id(self.pending@.last().data.segs(), id) by {
                    assert(self.pending@.drop_last() == p0);
                }
                assert forall|i: int| 0 <= i < self.pending@.len() implies (#[trigger] self.pending@[i]).data.wf() by {
                    if i < p0.len() {
                        assert(self.pending@[i] == p0[i]);
                    }
                }
            }
        } else {
            proof {
                data.lemma_empty_holds_nothing();
                assert(self.pending@.take(p0.len() as int) =~= p0);
            }
        }
        Ok(())
    }

    /// Everything but what sending changes, and the pending bodies, is the
    /// same in `self` and `other`.
    pub open spec fn same_except_sending_and_pending(&self, other: &Self) -> bool {
        &&& self.conn_recv_window() == other.conn_recv_window()
        &&& self.rx_segs() == other.rx_segs()
        &&& self.peer_settings() == other.peer_settings()
        &&& self.local_settings() == other.local_settings()
        &&& self.frame_size_out() == other.frame_size_out()
        &&& self.next_stream_id() == other.next_stream_id()
        &&& self.peer_stream_limit() == other.peer_stream_limit()
        &&& self.draining_now() == other.draining_now()
        &&& self.goaway_last_sid() == other.goaway_last_sid()
        &&& self.conn_key() == other.conn_key()
        &&& self.stream_map().dom() == other.stream_map().dom()
        &&& self.stream_items().len() == other.stream_items().len()
    }

    /// The oldest waiting body can go out at once: it holds bytes, and its
    /// stream's and the connection's send windows both have room (the
    /// smaller one below 2^31).
    pub open spec fn first_pending_sendable(&self) -> bool {
        self.pending_items().len() > 0 && ({
            let p = self.pending_items()[0];
            let avail = if self.stream_send_window(p.sid) <= self.conn_send_window() {
                self.stream_send_window(p.sid)
            } else {
                self.conn_send_window() as int
            };
            p.data.refs().len() > 0 && 0 < avail <= 0x7fff_ffff
        })
    }

    /// After the peer opened send window: sends pending request bodies,
    /// oldest first, until one still has to wait (it goes to the back, with
    /// what is left of its credit) or 1024 have been sent whole.
    fn flush_pending<O: BufOps>(&mut self, ops: &mut O) -> (r: Result<(), H2Error>)
        requires
            old(self).wf(),
        ensures
            r is Ok,
            final(self).wf(),
            forall|id: u16|
                #[trigger] final(ops).owners(id) - final(self).held(id) == old(ops).owners(id) - old(self).held(id),
            final(self).conn_send_window() <= old(self).conn_send_window(),
            final(self).tx_items().len() >= old(self).tx_items().len(),
            final(self).tx_items().take(old(self).tx_items().len() as int) == old(self).tx_items(),
            old(self).pending_items().len() == 0 ==> *final(self) == *old(self),
            final(self).pending_items().len() <= old(self).pending_items().len(),
            old(self).first_pending_sendable() ==> final(self).tx_items().len() > old(self).tx_items().len(),
            final(self).same_except_sending_and_pending(old(self)),
    {
        if self.pending.len() == 0 {
            return Ok(());
        }
        let mut rounds: usize = 0;
        let ghost t0 = self.tx@;
        let ghost mut first_done = false;
        proof {
            assert(t0.take(t0.len() as int) =~= t0);
        }
        while rounds < 1024
            invariant_except_break
                self.wf(),
                old(self).pending@.len() > 0,
                rounds > 0 ==> first_done,
                t0.len() <= self.tx@.len(),
                self.tx@.take(t0.len() as int) == t0,
                !first_done ==> *self == *old(self),
                first_done && old(self).first_pending_sendable() ==> self.tx@.len() > t0.len(),
                self.pending@.len() <= old(self).pending@.len(),
                self.send_conn_win <= old(self).conn_send_window(),
                forall|id: u16|
                    #[trigger] ops.owners(id) - self.held(id) == old(ops).owners(id) - old(self).held(id),
                self.same_except_sending_and_pending(old(self)),
            ensures
                first_done,
                self.wf(),
                t0.len() <= self.tx@.len(),
                self.tx@.take(t0.len() as int) == t0,
                !first_done ==> *self == *old(self),
                first_done && old(self).first_pending_sendable() ==> self.tx@.len() > t0.len(),
                self.pending@.len() <= old(self).pending@.len(),
                self.send_conn_win <= old(self).conn_send_window(),
                forall|id: u16|
                    #[trigger] ops.owners(id) - self.held(id) == old(ops).owners(id) - old(self).held(id),
                self.same_except_sending_and_pending(old(self)),
            decreases 1024 - rounds,
        {
            let ghost pend = self.pending@;
            let ghost tx_before = self.tx@;
            let p = match self.pending.pop_front() {
                Some(p) => p,
                None => {
                    break;
                },
            };
            proof {
                assert forall|id: u16| #[trigger] pending_count(pend, id) == count_id(p.data.segs(), id) + pending_count(self.pending@, id) by {
                    lemma_pending_count_front(pend, id);
                    assert(pend.drop_first() == self.pending@);
                }
                assert(p.data.wf()) by {
                    assert(pend[0] == p);
                }
                assert forall|i: int| 0 <= i < self.pending@.len() implies (#[trigger] self.pending@[i]).data.wf() by {
                    assert(self.pending@[i] == pend[i + 1]);
                }
            }
            let PendingData { sid, end_stream, data, credit } = p;
            let mut data = data;
            let ghost m_before = self.streams.by_sid();
            let ghost was_first = !first_done;
            let ghost p0 = old(self).pending_items();
            let ghost pre = *self;
            let ghost d0 = data;
            let rem = self.try_queue_data(sid, end_stream, &mut data, credit, ops);
            proof {
                assert(self.tx@.take(t0.len() as int) =~= t0) by {
                    assert(self.tx@.take(tx_before.len() as int) == tx_before);
                    assert(self.tx@.take(t0.len() as int) =~= tx_before.take(t0.len() as int));
                }
                assert(self.streams.by_sid().dom() =~= m_before.dom());
            }
            proof {
                if was_first && old(self).first_pending_sendable() {
                    let suffix = self.tx@.skip(tx_before.len() as int);
                    assert(pend == p0);
                    assert(p0[0] == p);
                    assert(pre.stream_send_window(sid) == old(self).stream_send_window(sid));
                    assert(pre.conn_send_window() == old(self).conn_send_window());
                    assert(pre.stream_map().contains_key(sid));
                    assert(d0.refs().len() > 0);
                    let sent = d0.refs().len() - data.refs().len();
                    assert(sent > 0);
                    assert(data_refs(suffix).len() == sent);
                    if suffix.len() == 0 {
                        assert(data_refs(suffix) =~= Seq::<(u16, int)>::empty());
                    }
                }
                first_done = true;
            }
            if !data.is_empty() {
                let ghost pb = self.pending@;
                self.pending.push_back(PendingData { sid, end_stream, data, credit: rem });
                proof {
                    assert forall|id: u16| #[trigger] pending_count(self.pending@, id) == pending_count(pb, id) + count_id(self.pending@.last().data.segs(), id) by {
                        assert(self.pending@.drop_last() == pb);
                    }
                    assert forall|i: int| 0 <= i < self.pending@.len() implies (#[trigger] self.pending@[i]).data.wf() by {
                        if i < pb.len() {
                            assert(self.pending@[i] == pb[i]);
                        }
                    }
                }
                break;
            } else {
                proof {
                    data.lemma_empty_holds_nothing();
                }
            }
            rounds = rounds + 1;
        }
        Ok(())
    }
}

/// The name of the response status pseudo-header.
pub open spec fn name_status() -> Seq<u8> {
    seq![58u8, 115, 116, 97, 116, 117, 115]
}

pub open spec fn is_digit(b: u8) -> bool {
    48 <= b <= 57
}

/// What the walk over a response header list has gathered: whether a
/// regular header was seen, the status, and the regular headers in order.
pub type RespScan = (bool, Option<u16>, Seq<(Seq<u8>, Seq<u8>)>);

/// One header of the walk: pseudo-headers come first and only `:status`
/// is known, which must be three digits (a repeated one replaces the
/// earlier value); regular headers are kept.
pub open spec fn resp_step(st: RespScan, h: (Seq<u8>, Seq<u8>)) -> Result<RespScan, Seq<char>> {
    let name = h.0;
    let v = h.1;
    if name.len() > 0 && name[0] == 58 {
        if st.0 {
            Err("pseudo header after regular header (resp)"@)
        } else if name == name_status() {
            if v.len() != 3 {
                Err("bad :status"@)
            } else if !(is_digit(v[0]) && is_digit(v[1]) && is_digit(v[2])) {
                Err("bad :status digits"@)
            } else {
                Ok((st.0, Some(((v[0] - 48) * 100 + (v[1] - 48) * 10 + (v[2] - 48)) as u16), st.2))
            }
        } else {
            Err("unknown pseudo header in response"@)
        }
    } else {
        Ok((true, st.1, st.2.push(h)))
    }
}

/// The walk over a whole response header list; the first refused header
/// stops it.
pub open spec fn resp_scan(hs: Seq<(Seq<u8>, Seq<u8>)>) -> Result<RespScan, Seq<char>>
    decreases hs.len(),
{
    if hs.len() == 0 {
        Ok((false, None, Seq::empty()))
    } else {
        match resp_scan(hs.drop_last()) {
            Err(m) => Err(m),
            Ok(st) => resp_step(st, hs.last()),
        }
    }
}

/// The status and regular headers of a response header list, or why it is
/// refused; a status is required.
pub open spec fn response_of(hs: Seq<(Seq<u8>, Seq<u8>)>) -> Result<(u16, Seq<(Seq<u8>, Seq<u8>)>), Seq<char>> {
    match resp_scan(hs) {
        Err(m) => Err(m),
        Ok(st) => match st.1 {
            None => Err("missing :status"@),
            Some(s) => Ok((s, st.2)),
        },
    }
}

/// A status the walk gathers has three digits.
pub proof fn lemma_resp_status_bound(hs: Seq<(Seq<u8>, Seq<u8>)>)
    ensures
        resp_scan(hs) matches Ok(st) ==> (st.1 matches Some(s) ==> s <= 999),
    decreases hs.len(),
{
    if hs.len() > 0 {
        lemma_resp_status_bound(hs.drop_last());
    }
}

/// Once the walk refuses a header, the whole list is refused the same way.
pub proof fn lemma_resp_refusal_sticks(hs: Seq<(Seq<u8>, Seq<u8>)>, k: int)
    requires
        0 <= k <= hs.len(),
        resp_scan(hs.take(k)) is Err,
    ensures
        resp_scan(hs) == resp_scan(hs.take(k)),
    decreases hs.len() - k,
{
    if k < hs.len() {
        assert(hs.take(k + 1).drop_last() =~= hs.take(k));
        lemma_resp_refusal_sticks(hs, k + 1);
    } else {
        assert(hs.take(k) =~= hs);
    }
}

/// Checks a decoded response header list: the status, and the regular
/// headers in order.  Every refusal is a protocol error naming the rule.
pub fn parse_response_headers(headers: Vec<Header>) -> (r: Result<(u16, Vec<Header>), H2Error>)
    ensures
        match response_of(header_pairs(headers@)) {
            Err(m) => r matches Err(e) && e.code == H2Code::ProtocolError && e.message@ == m,
            Ok(res) => r matches Ok(out) && out.0 == res.0 && header_pairs(out.1@) == res.1,
        },
        r matches Ok(out) ==> out.0 <= 999,
{
    proof {
        lemma_resp_status_bound(header_pairs(headers@));
    }
    let ghost hs = header_pairs(headers@);
    let mut saw_regular = false;
    let mut status: Option<u16> = None;
    let mut out: Vec<Header> = Vec::new();
    let mut i: usize = 0;
    proof {
        assert(hs.take(0) =~= Seq::<(Seq<u8>, Seq<u8>)>::empty());
        assert(header_pairs(out@) =~= Seq::<(Seq<u8>, Seq<u8>)>::empty());
    }
    while i < headers.len()
        invariant
            i <= headers.len(),
            hs == header_pairs(headers@),
            resp_scan(hs.take(i as int)) == Ok::<RespScan, Seq<char>>((saw_regular, status, header_pairs(out@))),
        decreases headers.len() - i,
    {
        let name = copy_bytes(&headers[i].name);
        let value = copy_bytes(&headers[i].value);
        proof {
            assert(hs.take(i as int + 1).drop_last() =~= hs.take(i as int));
            assert(hs.take(i as int + 1).last() == (name@, value@));
            if resp_scan(hs.take(i as int + 1)) is Err {
                lemma_resp_refusal_sticks(hs, i as int + 1);
            }
        }
        if name.len() > 0 && name[0] == 58 {
            if saw_regular {
                return Err(H2Error::new(H2Code::ProtocolError, "pseudo header after regular header (resp)"));
            }
            if eq_lit(name.as_slice(), &[58u8, 115, 116, 97, 116, 117, 115]) {
                if value.len() != 3 {
                    return Err(H2Error::new(H2Code::ProtocolError, "bad :status"));
                }
                if !(48 <= value[0] && value[0] <= 57 && 48 <= value[1] && value[1] <= 57 && 48 <= value[2] && value[2] <= 57) {
                    return Err(H2Error::new(H2Code::ProtocolError, "bad :status digits"));
                }
                let d0 = (value[0] - 48) as u16;
                let d1 = (value[1] - 48) as u16;
                let d2 = (value[2] - 48) as u16;
                status = Some(d0 * 100 + d1 * 10 + d2);
            } else {
                return Err(H2Error::new(H2Code::ProtocolError, "unknown pseudo header in response"));
            }
        } else {
            saw_regular = true;
            let ghost before = out@;
            out.push(Header { name, value });
            proof {
                assert(header_pairs(out@) =~= header_pairs(before).push(hs[i as int]));
            }
        }
        i = i + 1;
    }
    proof {
        assert(hs.take(i as int) =~= hs);
    }
    match status {
        Some(st) => Ok((st, out)),
        None => Err(H2Error::new(H2Code::ProtocolError, "missing :status")),
    }
}

impl UpstreamH2 {
    fn queue_settings_ack(&mut self)
        requires
            old(self).wf(),
        ensures
            final(self).wf(),
            queued(old(self).tx_items(), final(self).tx_items(), control_header(0, FrameType::Settings, FLAG_ACK, 0), Seq::empty()),
            forall|id: u16| #[trigger] final(self).held(id) == old(self).held(id),
            final(self).same_except_tx(old(self)),
    {
        self.queue_frame(FrameHeader { len: 0, ty: FrameType::Settings, flags: FLAG_ACK, stream_id: 0 }, Vec::new());
    }

    fn queue_ping_ack(&mut self, payload8: Vec<u8>)
        requires
            old(self).wf(),
        ensures
            final(self).wf(),
            queued(old(self).tx_items(), final(self).tx_items(), control_header(8, FrameType::Ping, FLAG_ACK, 0), payload8@),
            forall|id: u16| #[trigger] final(self).held(id) == old(self).held(id),
            final(self).same_except_tx(old(self)),
    {
        self.queue_frame(FrameHeader { len: 8, ty: FrameType::Ping, flags: FLAG_ACK, stream_id: 0 }, payload8);
    }

    proof fn lemma_rx_covered<O: BufOps>(&self, ops: O)
        requires
            self.owned_by(ops),
        ensures
            covered(ops, self.rx_segs()),
    {
        assert forall|id: u16| #[trigger] ops.owners(id) >= count_id(self.rx_segs(), id) by {
            lemma_items_count_nonneg(self.tx_items(), id);
            lemma_pending_count_nonneg(self.pending_items(), id);
            assert(ops.owners(id) >= self.held(id));
        }
    }

    /// SETTINGS from the peer: an ACK must be empty; otherwise the records
    /// are applied to the peer settings, the frame sizes and the peer's
    /// stream limit follow, a change of initial window shifts every
    /// stream's send window (and waiting bodies are sent), and an ACK is
    /// queued.
    fn on_settings_frame<O: BufOps, S: UpstreamSink>(&mut self, fh: FrameHeader, ops: &mut O, sink: &mut S) -> (stop: bool)
        requires
            old(self).wf(),
            old(self).owned_by(*old(ops)),
            fh.ty == FrameType::Settings,
        ensures
            final(self).kept_from(old(self), *final(ops), *old(ops)),
            !stop && crate::h2_buf::refs_of(old(self).rx_segs()).len() >= fh.len
                ==> crate::h2_buf::refs_of(final(self).rx_segs()) == crate::h2_buf::refs_of(old(self).rx_segs()).skip(fh.len as int),
            up_events_extend(old(sink).events(), final(sink).events()),
            !stop ==> final(sink).events() == old(sink).events(),
            stop ==> final(sink).events() == old(sink).events()
                || up_some_error(old(sink).events(), final(sink).events(), old(self).conn_key()),
            fh.stream_id != 0 ==> stop && up_failed(*old(self), *final(self), old(sink).events(), final(sink).events(), H2Code::ProtocolError),
            fh.stream_id == 0 && fh.flags & FLAG_ACK != 0 ==> {
                &&& stop <==> fh.len != 0
                &&& stop ==> up_failed(*old(self), *final(self), old(sink).events(), final(sink).events(), H2Code::FrameSizeError)
                &&& !stop ==> *final(self) == *old(self)
            },
            fh.stream_id == 0 && fh.flags & FLAG_ACK == 0 && crate::h2_buf::refs_of(old(self).rx_segs()).len() >= fh.len ==> ({
                let payload = rx_prefix(*old(ops), old(self).rx_segs(), fh.len as int);
                let applied = crate::h2_settings::apply_records(old(self).peer_settings(), payload);
                &&& payload.len() % 6 != 0 ==> stop && up_failed(*old(self), *final(self), old(sink).events(), final(sink).events(), H2Code::FrameSizeError)
                &&& payload.len() % 6 == 0 && applied.1 is Some ==> stop && up_failed(*old(self), *final(self), old(sink).events(), final(sink).events(), applied.1->0)
                &&& payload.len() % 6 == 0 && applied.1 is None ==> {
                    &&& final(self).peer_settings() == applied.0
                    &&& final(self).frame_size_out() == applied.0.max_frame_size
                    &&& final(self).peer_stream_limit() == applied.0.max_concurrent_streams
                    &&& stop ==> up_failed(*old(self), *final(self), old(sink).events(), final(sink).events(), H2Code::FlowControlError)
                    &&& !stop ==> {
                        &&& final(self).tx_items().len() > old(self).tx_items().len()
                        &&& final(self).tx_items().take(old(self).tx_items().len() as int) == old(self).tx_items()
                        &&& is_frame(final(self).tx_items().last(), control_header(0, FrameType::Settings, FLAG_ACK, 0), Seq::empty())
                    }
                }
            }),
    {
        let ghost s0 = *self;
        if fh.stream_id != 0 {
            self.fail(H2Error::new(H2Code::ProtocolError, "SETTINGS on stream != 0"), sink);
            return true;
        }
        if fh.flags & FLAG_ACK != 0 {
            if fh.len != 0 {
                self.fail(H2Error::new(H2Code::FrameSizeError, "SETTINGS ack non-zero len"), sink);
                return true;
            }
            return false;
        }
        proof {
            self.lemma_rx_covered(*ops);
        }
        self.header_scratch.clear();
        let _ = self.rx.copy_into_vec(fh.len, ops, &mut self.header_scratch);
        proof {
            if crate::h2_buf::refs_of(old(self).rx_segs()).len() >= fh.len {
                assert(self.header_scratch@ =~= rx_prefix(*old(ops), old(self).rx_segs(), fh.len as int));
            }
        }
        let res = self.peer.apply_from_payload(self.header_scratch.as_slice());
        proof {
            lemma_apply_keeps_valid(s0.peer, self.header_scratch@);
        }
        match res {
            Err(e) => {
                self.fail(e, sink);
                return true;
            },
            Ok(delta) => {
                self.max_frame_size_in = self.peer.max_frame_size;
                self.max_frame_size_out = self.peer.max_frame_size;
                self.peer_max_concurrent = self.peer.max_concurrent_streams;
                let d = delta.initial_window_delta();
                if d != 0 {
                    let overflow = self.streams.shift_send_windows(d);
                    if overflow {
                        self.fail(H2Error::new(H2Code::FlowControlError, "send window overflow"), sink);
                        return true;
                    }
                    let _ = self.flush_pending(ops);
                }
                let ghost t_mid = self.tx@;
                self.queue_settings_ack();
                proof {
                    assert(self.tx@.take(old(self).tx_items().len() as int) =~= t_mid.take(old(self).tx_items().len() as int));
                }
                false
            },
        }
    }

    /// PING: must be eight bytes on stream 0; one without ACK is answered
    /// with the same bytes.
    fn on_ping_frame<O: BufOps, S: UpstreamSink>(&mut self, fh: FrameHeader, ops: &mut O, sink: &mut S) -> (stop: bool)
        requires
            old(self).wf(),
            old(self).owned_by(*old(ops)),
            crate::h2_buf::refs_of(old(self).rx_segs()).len() >= fh.len,
        ensures
            final(self).kept_from(old(self), *final(ops), *old(ops)),
            !stop && crate::h2_buf::refs_of(old(self).rx_segs()).len() >= fh.len
                ==> crate::h2_buf::refs_of(final(self).rx_segs()) == crate::h2_buf::refs_of(old(self).rx_segs()).skip(fh.len as int),
            up_events_extend(old(sink).events(), final(sink).events()),
            !stop ==> final(sink).events() == old(sink).events(),
            stop ==> final(sink).events() == old(sink).events()
                || up_some_error(old(sink).events(), final(sink).events(), old(self).conn_key()),
            stop == (fh.stream_id != 0 || fh.len != 8),
            stop ==> up_failed(*old(self), *final(self), old(sink).events(), final(sink).events(), H2Code::ProtocolError),
            !stop ==> crate::h2_buf::refs_of(final(self).rx_segs()) == crate::h2_buf::refs_of(old(self).rx_segs()).skip(8),
            !stop && fh.flags & FLAG_ACK == 0 ==> queued(
                old(self).tx_items(),
                final(self).tx_items(),
                control_header(8, FrameType::Ping, FLAG_ACK, 0),
                rx_prefix(*old(ops), old(self).rx_segs(), 8),
            ),
            !stop && fh.flags & FLAG_ACK != 0 ==> final(self).tx_items() == old(self).tx_items(),
    {
        if fh.stream_id != 0 || fh.len != 8 {
            self.fail(H2Error::new(H2Code::ProtocolError, "bad PING"), sink);
            return true;
        }
        proof {
            self.lemma_rx_covered(*ops);
        }
        self.header_scratch.clear();
        let _ = self.rx.copy_into_vec(8, ops, &mut self.header_scratch);
        let p8 = slice_vec(&self.header_scratch, 0, 8);
        proof {
            assert(p8@ =~= rx_prefix(*old(ops), old(self).rx_segs(), 8));
        }
        if fh.flags & FLAG_ACK == 0 {
            self.queue_ping_ack(p8);
        }
        false
    }

    /// WINDOW_UPDATE: four bytes with a non-zero increment, added to the
    /// connection's (stream 0) or the stream's send window, which may not
    /// pass 2^31 - 1; waiting request bodies are then sent.  An update for
    /// an unknown stream is ignored.
    fn on_window_update_frame<O: BufOps, S: UpstreamSink>(&mut self, fh: FrameHeader, ops: &mut O, sink: &mut S) -> (stop: bool)
        requires
            old(self).wf(),
            old(self).owned_by(*old(ops)),
            crate::h2_buf::refs_of(old(self).rx_segs()).len() >= fh.len,
        ensures
            final(self).kept_from(old(self), *final(ops), *old(ops)),
            !stop && crate::h2_buf::refs_of(old(self).rx_segs()).len() >= fh.len
                ==> crate::h2_buf::refs_of(final(self).rx_segs()) == crate::h2_buf::refs_of(old(self).rx_segs()).skip(fh.len as int),
            up_events_extend(old(sink).events(), final(sink).events()),
            !stop ==> final(sink).events() == old(sink).events(),
            stop ==> final(sink).events() == old(sink).events()
                || up_some_error(old(sink).events(), final(sink).events(), old(self).conn_key()),
            fh.len != 4 ==> stop && up_failed(*old(self), *final(self), old(sink).events(), final(sink).events(), H2Code::FrameSizeError),
            fh.len == 4 ==> ({
                let inc = u31_of(rx_prefix(*old(ops), old(self).rx_segs(), 4));
                &&& inc == 0 ==> stop && up_failed(*old(self), *final(self), old(sink).events(), final(sink).events(), H2Code::ProtocolError)
                &&& inc != 0 && fh.stream_id == 0 ==> (stop <==> old(self).conn_send_window() + inc > 0x7fff_ffff)
                &&& inc != 0 && fh.stream_id != 0 ==> (stop <==> old(self).stream_map().contains_key(fh.stream_id)
                    && old(self).stream_send_window(fh.stream_id) + inc > 0x7fff_ffff)
                &&& inc != 0 && stop ==> up_failed(*old(self), *final(self), old(sink).events(), final(sink).events(), H2Code::FlowControlError)
                &&& inc != 0 && fh.stream_id != 0 && !old(self).stream_map().contains_key(fh.stream_id)
                    ==> final(self).tx_items() == old(self).tx_items()
            }),
            !stop ==> final(self).tx_items().take(old(self).tx_items().len() as int) == old(self).tx_items(),
    {
        if fh.len != 4 {
            self.fail(H2Error::new(H2Code::FrameSizeError, "WINDOW_UPDATE len != 4"), sink);
            return true;
        }
        proof {
            self.lemma_rx_covered(*ops);
        }
        self.header_scratch.clear();
        let _ = self.rx.copy_into_vec(4, ops, &mut self.header_scratch);
        let v = be32_at(&self.header_scratch, 0) & 0x7fff_ffff;
        if v == 0 {
            self.fail(H2Error::new(H2Code::ProtocolError, "WINDOW_UPDATE increment 0"), sink);
            return true;
        }
        if fh.stream_id == 0 {
            self.send_conn_win = add_i64(self.send_conn_win, v as i64);
            if self.send_conn_win > 0x7fff_ffff {
                self.fail(H2Error::new(H2Code::FlowControlError, "conn send window overflow"), sink);
                return true;
            }
            let _ = self.flush_pending(ops);
        } else {
            proof {
                self.streams.lemma_sids_match();
            }
            let over = match self.streams.get_mut(fh.stream_id) {
                Some(st) => {
                    st.send_win = add_i64(st.send_win, v as i64);
                    Some(st.send_win > 0x7fff_ffff)
                },
                None => None,
            };
            match over {
                Some(true) => {
                    self.fail(H2Error::new(H2Code::FlowControlError, "stream send window overflow"), sink);
                    return true;
                },
                Some(false) => {
                    let _ = self.flush_pending(ops);
                },
                None => {},
            }
        }
        false
    }

    /// RST_STREAM: four bytes on a stream other than 0; the stream is
    /// dropped and the reset reported.
    fn on_rst_stream_frame<O: BufOps, S: UpstreamSink>(&mut self, fh: FrameHeader, ops: &mut O, sink: &mut S) -> (stop: bool)
        requires
            old(self).wf(),
            old(self).owned_by(*old(ops)),
            crate::h2_buf::refs_of(old(self).rx_segs()).len() >= fh.len,
        ensures
            final(self).kept_from(old(self), *final(ops), *old(ops)),
            !stop && crate::h2_buf::refs_of(old(self).rx_segs()).len() >= fh.len
                ==> crate::h2_buf::refs_of(final(self).rx_segs()) == crate::h2_buf::refs_of(old(self).rx_segs()).skip(fh.len as int),
            up_events_extend(old(sink).events(), final(sink).events()),
            !stop ==> final(sink).events() == old(sink).events().push(UpEvent::Reset {
                up: old(self).conn_key(),
                up_sid: fh.stream_id,
                code: code_of_value(be32_value(rx_prefix(*old(ops), old(self).rx_segs(), 4))),
            }),
            stop ==> final(sink).events() == old(sink).events()
                || up_some_error(old(sink).events(), final(sink).events(), old(self).conn_key()),
            stop == (fh.stream_id == 0 || fh.len != 4),
            stop ==> up_failed(*old(self), *final(self), old(sink).events(), final(sink).events(), H2Code::ProtocolError),
            !stop ==> final(self).stream_map() == old(self).stream_map().remove(fh.stream_id),
            !stop ==> final(self).tx_items() == old(self).tx_items(),
    {
        if fh.stream_id == 0 || fh.len != 4 {
            self.fail(H2Error::new(H2Code::ProtocolError, "bad RST_STREAM"), sink);
            return true;
        }
        proof {
            self.lemma_rx_covered(*ops);
        }
        self.header_scratch.clear();
        let _ = self.rx.copy_into_vec(4, ops, &mut self.header_scratch);
        let code = H2Code::from_u32(be32_at(&self.header_scratch, 0));
        self.close_stream(fh.stream_id);
        sink.on_rst_stream(self.key, fh.stream_id, code);
        false
    }

    /// GOAWAY: at least eight bytes on stream 0; the connection drains and
    /// the last stream id and the code are reported.
    fn on_goaway_frame<O: BufOps, S: UpstreamSink>(&mut self, fh: FrameHeader, ops: &mut O, sink: &mut S) -> (stop: bool)
        requires
            old(self).wf(),
            old(self).owned_by(*old(ops)),
            crate::h2_buf::refs_of(old(self).rx_segs()).len() >= fh.len,
        ensures
            final(self).kept_from(old(self), *final(ops), *old(ops)),
            !stop && crate::h2_buf::refs_of(old(self).rx_segs()).len() >= fh.len
                ==> crate::h2_buf::refs_of(final(self).rx_segs()) == crate::h2_buf::refs_of(old(self).rx_segs()).skip(fh.len as int),
            up_events_extend(old(sink).events(), final(sink).events()),
            !stop ==> final(sink).events() == old(sink).events().push(UpEvent::Goaway {
                up: old(self).conn_key(),
                last_sid: u31_of(rx_prefix(*old(ops), old(self).rx_segs(), 4)),
                code: code_of_value(be32_value(rx_prefix(*old(ops), old(self).rx_segs(), fh.len as int).subrange(4, 8))),
            }),
            stop ==> final(sink).events() == old(sink).events()
                || up_some_error(old(sink).events(), final(sink).events(), old(self).conn_key()),
            stop == (fh.stream_id != 0 || fh.len < 8),
            stop ==> up_failed(*old(self), *final(self), old(sink).events(), final(sink).events(), H2Code::ProtocolError),
            !stop ==> {
                &&& final(self).draining_now()
                &&& final(self).goaway_last_sid() == u31_of(rx_prefix(*old(ops), old(self).rx_segs(), 4))
                &&& final(self).tx_items() == old(self).tx_items()
                &&& final(self).stream_map() == old(self).stream_map()
            },
    {
        if fh.stream_id != 0 || fh.len < 8 {
            self.fail(H2Error::new(H2Code::ProtocolError, "bad GOAWAY"), sink);
            return true;
        }
        proof {
            self.lemma_rx_covered(*ops);
        }
        self.header_scratch.clear();
        let _ = self.rx.copy_into_vec(fh.len, ops, &mut self.header_scratch);
        let last = be32_at(&self.header_scratch, 0) & 0x7fff_ffff;
        proof {
            assert(self.header_scratch@.take(4) =~= rx_prefix(*old(ops), old(self).rx_segs(), 4));
        }
        let code = H2Code::from_u32(be32_at(&self.header_scratch, 4));
        self.mark_goaway(last, code);
        sink.on_goaway(self.key, last, code);
        false
    }
}

impl UpstreamH2 {
    /// Decodes the complete header block in the scratch buffer and reports
    /// the response of stream `sid`; a block that does not decode is a
    /// connection error, a response the rules refuse resets the stream.  A
    /// response that ends the stream half-closes it.
    fn finish_header_block<S: UpstreamSink>(&mut self, sid: u32, end_stream: bool, sink: &mut S) -> (stop: bool)
        requires
            old(self).wf(),
        ensures
            final(self).wf(),
            forall|id: u16| #[trigger] final(self).held(id) == old(self).held(id),
            final(self).next_stream_id() == old(self).next_stream_id(),
            final(self).draining_now() == old(self).draining_now(),
            final(self).local_settings() == old(self).local_settings(),
            final(self).conn_key() == old(self).conn_key(),
            final(self).continuation_of() == old(self).continuation_of(),
            up_events_extend(old(sink).events(), final(sink).events()),
            !stop ==> up_headers_event(old(sink).events(), final(sink).events(), old(self).conn_key(), sid, end_stream),
            stop ==> up_some_error(old(sink).events(), final(sink).events(), old(self).conn_key()),
            final(self).rx_segs() == old(self).rx_segs(),
            final(self).tx_items().take(old(self).tx_items().len() as int) == old(self).tx_items(),
            stop ==> final(self).tx_items().len() == old(self).tx_items().len() + 1
                && final(self).stream_map() == old(self).stream_map(),
            !stop ==> final(self).tx_items() == old(self).tx_items(),
            !stop ==> final(self).stream_map() == (if end_stream && old(self).stream_map().contains_key(sid) {
                old(self).stream_map().insert(sid, UpStream { state: UpStreamState::HalfClosedRemote, ..old(self).stream_map()[sid] })
            } else {
                old(self).stream_map()
            }),
    {
        let decoded = match self.hdec.decode(self.header_scratch.as_slice()) {
            Ok(h) => h,
            Err(e) => {
                self.fail(e, sink);
                return true;
            },
        };
        let ghost hs = header_pairs(decoded@);
        let (status, hdrs) = match parse_response_headers(decoded) {
            Ok(x) => x,
            Err(e) => {
                self.queue_rst_stream(sid, e.code);
                sink.on_conn_error(self.key, e);
                return true;
            },
        };
        if end_stream {
            proof {
                self.streams.lemma_sids_match();
            }
            match self.streams.get_mut(sid) {
                Some(st) => {
                    st.state = UpStreamState::HalfClosedRemote;
                },
                None => {},
            }
        }
        proof {
            assert(response_matches(status, hdrs, hs));
        }
        let ghost ev0 = sink.events();
        sink.on_response_headers(self.key, sid, end_stream, status, hdrs);
        proof {
            let last = sink.events().last();
            assert(last == UpEvent::Headers { up: self.key, up_sid: sid, end_stream, status, headers: hdrs });
            assert(response_matches(status, hdrs, hs));
            assert(response_matches(last->status, last->headers, hs));
            assert(sink.events().drop_last() =~= ev0);
        }
        false
    }

    /// HEADERS: on a stream other than 0; padding and priority are
    /// stripped, and the block either waits for CONTINUATION frames or is
    /// decoded.
    fn on_headers_frame<O: BufOps, S: UpstreamSink>(&mut self, fh: FrameHeader, ops: &mut O, sink: &mut S) -> (stop: bool)
        requires
            old(self).wf(),
            old(self).owned_by(*old(ops)),
        ensures
            final(self).kept_from(old(self), *final(ops), *old(ops)),
            !stop && crate::h2_buf::refs_of(old(self).rx_segs()).len() >= fh.len
                ==> crate::h2_buf::refs_of(final(self).rx_segs()) == crate::h2_buf::refs_of(old(self).rx_segs()).skip(fh.len as int),
            up_events_extend(old(sink).events(), final(sink).events()),
            !stop && fh.flags & FLAG_END_HEADERS == 0 ==> final(sink).events() == old(sink).events(),
            !stop && fh.flags & FLAG_END_HEADERS != 0 ==> up_headers_event(
                old(sink).events(),
                final(sink).events(),
                old(self).conn_key(),
                fh.stream_id,
                fh.flags & FLAG_END_STREAM != 0,
            ),
            stop ==> final(sink).events() == old(sink).events()
                || up_some_error(old(sink).events(), final(sink).events(), old(self).conn_key()),
            fh.stream_id == 0 ==> stop && up_failed(*old(self), *final(self), old(sink).events(), final(sink).events(), H2Code::ProtocolError),
            !stop && fh.flags & FLAG_END_HEADERS == 0 ==> final(self).continuation_of() == Some(fh.stream_id),
    {
        let sid = fh.stream_id;
        if sid == 0 {
            self.fail(H2Error::new(H2Code::ProtocolError, "HEADERS on stream 0"), sink);
            return true;
        }
        let mut pad_len: u8 = 0;
        if fh.flags & FLAG_PADDED != 0 {
            pad_len = match self.rx.read_u8(ops) {
                Ok(x) => x,
                Err(_) => {
                    return true;
                },
            };
        }
        if fh.flags & FLAG_PRIORITY != 0 {
            let _ = self.rx.consume(5, ops);
        }
        let mut frag_len: i64 = fh.len as i64;
        if fh.flags & FLAG_PADDED != 0 {
            frag_len = frag_len - 1;
        }
        if fh.flags & FLAG_PRIORITY != 0 {
            frag_len = frag_len - 5;
        }
        frag_len = frag_len - pad_len as i64;
        if frag_len < 0 {
            self.fail(H2Error::new(H2Code::ProtocolError, "bad HEADERS length"), sink);
            return true;
        }
        proof {
            self.lemma_rx_covered(*ops);
        }
        self.header_scratch.clear();
        match self.rx.copy_into_vec(frag_len as u32, ops, &mut self.header_scratch) {
            Ok(()) => {},
            Err(()) => {
                return true;
            },
        }
        if pad_len > 0 {
            let _ = self.rx.consume(pad_len as u32, ops);
        }
        if fh.flags & FLAG_END_HEADERS == 0 {
            self.cont = Some(sid);
            false
        } else {
            self.finish_header_block(sid, fh.flags & FLAG_END_STREAM != 0, sink)
        }
    }

    /// CONTINUATION: must follow HEADERS of the same stream; the last one
    /// completes the block.
    fn on_continuation_frame<O: BufOps, S: UpstreamSink>(&mut self, fh: FrameHeader, ops: &mut O, sink: &mut S) -> (stop: bool)
        requires
            old(self).wf(),
            old(self).owned_by(*old(ops)),
        ensures
            final(self).kept_from(old(self), *final(ops), *old(ops)),
            !stop && crate::h2_buf::refs_of(old(self).rx_segs()).len() >= fh.len
                ==> crate::h2_buf::refs_of(final(self).rx_segs()) == crate::h2_buf::refs_of(old(self).rx_segs()).skip(fh.len as int),
            up_events_extend(old(sink).events(), final(sink).events()),
            !stop && fh.flags & FLAG_END_HEADERS == 0 ==> final(sink).events() == old(sink).events(),
            !stop && fh.flags & FLAG_END_HEADERS != 0 ==> up_headers_event(
                old(sink).events(),
                final(sink).events(),
                old(self).conn_key(),
                fh.stream_id,
                false,
            ),
            stop ==> final(sink).events() == old(sink).events()
                || up_some_error(old(sink).events(), final(sink).events(), old(self).conn_key()),
            old(self).continuation_of() != Some(fh.stream_id) ==> stop && up_failed(*old(self), *final(self), old(sink).events(), final(sink).events(), H2Code::ProtocolError),
            old(self).continuation_of() == Some(fh.stream_id) && fh.flags & FLAG_END_HEADERS == 0 ==> {
                &&& stop <==> crate::h2_buf::refs_of(old(self).rx_segs()).len() < fh.len
                &&& final(self).continuation_of() == old(self).continuation_of()
                &&& final(self).tx_items() == old(self).tx_items()
            },
            old(self).continuation_of() == Some(fh.stream_id) && fh.flags & FLAG_END_HEADERS != 0
                && crate::h2_buf::refs_of(old(self).rx_segs()).len() >= fh.len ==> final(self).continuation_of() is None,
    {
        let sid = fh.stream_id;
        if self.cont != Some(sid) {
            self.fail(H2Error::new(H2Code::ProtocolError, "unexpected CONTINUATION"), sink);
            return true;
        }
        proof {
            self.lemma_rx_covered(*ops);
        }
        match self.rx.copy_into_vec(fh.len, ops, &mut self.header_scratch) {
            Ok(()) => {},
            Err(()) => {
                return true;
            },
        }
        if fh.flags & FLAG_END_HEADERS != 0 {
            self.cont = None;
            return self.finish_header_block(sid, false, sink);
        }
        false
    }

    /// DATA: on a known stream other than 0; the payload (padding removed)
    /// is handed on without copying after both receive windows are charged.
    /// An exhausted connection window is a connection error, an exhausted
    /// stream window resets the stream; either way the payload goes back to
    /// the pool.  DATA that ends the stream half-closes it.
    fn on_data_frame<O: BufOps, S: UpstreamSink>(&mut self, fh: FrameHeader, ops: &mut O, sink: &mut S) -> (stop: bool)
        requires
            old(self).wf(),
            old(self).owned_by(*old(ops)),
        ensures
            final(self).kept_from(old(self), *final(ops), *old(ops)),
            !stop && crate::h2_buf::refs_of(old(self).rx_segs()).len() >= fh.len
                ==> crate::h2_buf::refs_of(final(self).rx_segs()) == crate::h2_buf::refs_of(old(self).rx_segs()).skip(fh.len as int),
            up_events_extend(old(sink).events(), final(sink).events()),
            !stop && fh.flags & FLAG_PADDED != 0 ==> rx_prefix(*old(ops), old(self).rx_segs(), 1)[0] + 1 <= fh.len,
            !stop ==> up_data_event(
                old(sink).events(),
                final(sink).events(),
                old(self).conn_key(),
                fh.stream_id,
                fh.flags & FLAG_END_STREAM != 0,
                if fh.flags & FLAG_PADDED == 0 {
                    crate::h2_buf::refs_of(old(self).rx_segs()).take(fh.len as int)
                } else {
                    crate::h2_buf::refs_of(old(self).rx_segs()).subrange(
                        1,
                        fh.len - rx_prefix(*old(ops), old(self).rx_segs(), 1)[0],
                    )
                },
            ),
            stop ==> final(sink).events() == old(sink).events()
                || up_some_error(old(sink).events(), final(sink).events(), old(self).conn_key()),
            fh.stream_id == 0 ==> stop && up_failed(*old(self), *final(self), old(sink).events(), final(sink).events(), H2Code::ProtocolError),
            fh.stream_id != 0 && !old(self).stream_map().contains_key(fh.stream_id)
                ==> stop && up_failed(*old(self), *final(self), old(sink).events(), final(sink).events(), H2Code::StreamClosed),
            fh.stream_id != 0 && old(self).stream_map().contains_key(fh.stream_id) && fh.flags & FLAG_PADDED == 0
                && crate::h2_buf::refs_of(old(self).rx_segs()).len() >= fh.len ==> {
                &&& final(self).conn_recv_window() == sat_i64(old(self).conn_recv_window() - fh.len)
                &&& crate::h2_buf::refs_of(final(self).rx_segs()) == crate::h2_buf::refs_of(old(self).rx_segs()).skip(fh.len as int)
                &&& old(self).conn_recv_window() - fh.len < 0 ==> stop && up_failed(*old(self), *final(self), old(sink).events(), final(sink).events(), H2Code::FlowControlError)
                &&& old(self).conn_recv_window() - fh.len >= 0 ==> (stop <==> old(self).stream_map()[fh.stream_id].recv_win - fh.len < 0)
            },
    {
        let sid = fh.stream_id;
        if sid == 0 {
            self.fail(H2Error::new(H2Code::ProtocolError, "DATA on stream 0"), sink);
            return true;
        }
        if self.streams.get(sid).is_none() {
            self.fail(H2Error::new(H2Code::StreamClosed, "DATA on closed stream"), sink);
            return true;
        }
        let end_stream = fh.flags & FLAG_END_STREAM != 0;
        let padded = fh.flags & FLAG_PADDED != 0;
        let mut pad_len: u32 = 0;
        if padded {
            pad_len = match self.rx.read_u8(ops) {
                Ok(x) => x as u32,
                Err(_) => {
                    return true;
                },
            };
            proof {
                assert(pad_len == rx_prefix(*old(ops), old(self).rx_segs(), 1)[0]);
            }
            if pad_len + 1 > fh.len {
                self.fail(H2Error::new(H2Code::ProtocolError, "bad DATA padding"), sink);
                return true;
            }
        }
        let data_len: u32 = if padded { fh.len - 1 - pad_len } else { fh.len };
        let ghost r_at = self.rx.refs();
        let mut data = match self.rx.take_chain(data_len, ops) {
            Ok(c) => c,
            Err(_) => {
                return true;
            },
        };
        proof {
            assert forall|id: u16| #[trigger] count_id(data.segs(), id) >= 0 by {
                lemma_count_nonneg(data.segs(), id);
            }
            let r0 = crate::h2_buf::refs_of(old(self).rx_segs());
            if padded {
                assert(r_at =~= r0.skip(1));
                assert(data.refs() =~= r0.subrange(1, fh.len - rx_prefix(*old(ops), old(self).rx_segs(), 1)[0]));
            } else {
                assert(data.refs() =~= r0.take(fh.len as int));
            }
        }
        if padded && pad_len > 0 {
            let _ = self.rx.consume(pad_len, ops);
        }
        self.recv_conn_win = add_i64(self.recv_conn_win, -(data_len as i64));
        if self.recv_conn_win < 0 {
            self.fail(H2Error::new(H2Code::FlowControlError, "up conn recv window negative"), sink);
            data.release(ops);
            return true;
        }
        proof {
            self.streams.lemma_sids_match();
        }
        let refused = match self.streams.get_mut(sid) {
            Some(st) => {
                st.recv_win = add_i64(st.recv_win, -(data_len as i64));
                if st.recv_win < 0 {
                    true
                } else {
                    if end_stream {
                        st.state = UpStreamState::HalfClosedRemote;
                    }
                    false
                }
            },
            None => false,
        };
        if refused {
            self.queue_rst_stream(sid, H2Code::FlowControlError);
            data.release(ops);
            return true;
        }
        sink.on_response_data(self.key, sid, end_stream, data);
        false
    }

    /// The first frame waiting in the input (read through `ops`) is whole
    /// and admitted: its header parses, and neither a header block waiting
    /// for CONTINUATION nor a missing first SETTINGS refuses it.
    pub open spec fn first_frame_admitted<O: BufOps>(&self, ops: O) -> bool {
        let h = rx_prefix(ops, self.rx_segs(), 9);
        let ty = frame_type_of_byte(h[3]);
        &&& crate::h2_buf::refs_of(self.rx_segs()).len() >= 9
        &&& parsed_len(h) <= effective_max_frame(self.frame_size_in())
        &&& crate::h2_buf::refs_of(self.rx_segs()).len() >= 9 + parsed_len(h)
        &&& self.continuation_of() is Some ==> ty == FrameType::Continuation && parsed_stream_id(h) == self.continuation_of()->0
        &&& self.continuation_of() is None && self.awaiting_settings() ==> ty == FrameType::Settings
    }

    /// Reads the first waiting frame: a frame that is not whole yet is left
    /// waiting; a header that does not parse, a frame other than the awaited
    /// CONTINUATION, or a first frame other than SETTINGS is a connection
    /// error; otherwise the frame is handled by its type (unknown types are
    /// skipped).
    #[verifier::spinoff_prover]
    pub fn read_frame<O: BufOps, S: UpstreamSink>(&mut self, ops: &mut O, sink: &mut S) -> (r: FrameRead)
        requires
            old(self).wf(),
            old(self).owned_by(*old(ops)),
        ensures
            final(self).kept_from(old(self), *final(ops), *old(ops)),
            final(self).owned_by(*final(ops)),
            up_events_extend(old(sink).events(), final(sink).events()),
            up_frame_read(*old(self), *final(self), *old(ops), old(sink).events(), final(sink).events(), r),
    {
        let mut hdr = [0u8; 9];
        if !self.rx.peek_exact(FRAME_HEADER_LEN, &*ops, &mut hdr) {
            return FrameRead::Incomplete;
        }
        proof {
            assert(hdr@ =~= rx_prefix(*old(ops), old(self).rx_segs(), 9));
        }
        let fh = match FrameHeader::parse(&hdr, self.max_frame_size_in) {
            Ok(x) => x,
            Err(e) => {
                self.fail(e, sink);
                return FrameRead::Stopped;
            },
        };
        if (self.rx.available() as u64) < 9 + fh.len as u64 {
            return FrameRead::Incomplete;
        }
        proof {
            self.lemma_rx_covered(*ops);
        }
        let _ = self.rx.consume(9, ops);
        proof {
            assert forall|id: u16| #[trigger] ops.owners(id) >= self.held(id) by {
                assert(old(ops).owners(id) >= old(self).held(id));
            }
            self.lemma_rx_covered(*ops);
            lemma_prefix_kept(*old(ops), *ops, old(self).rx_segs(), self.rx_segs(), 9, fh.len as int);
        }
        match self.cont {
            Some(c) => {
                let is_cont = match fh.ty {
                    FrameType::Continuation => true,
                    _ => false,
                };
                if !is_cont || fh.stream_id != c {
                    self.fail(H2Error::new(H2Code::ProtocolError, "expected CONTINUATION (upstream)"), sink);
                    return FrameRead::Stopped;
                }
            },
            None => {},
        }
        if self.need_first_settings {
            match fh.ty {
                FrameType::Settings => {},
                _ => {
                    self.fail(H2Error::new(H2Code::ProtocolError, "first upstream frame must be SETTINGS"), sink);
                    return FrameRead::Stopped;
                },
            }
            self.need_first_settings = false;
        }
        let ghost mid = *self;
        let ghost ops_mid = *ops;
        let stop = match fh.ty {
            FrameType::Settings => self.on_settings_frame(fh, ops, sink),
            FrameType::Ping => self.on_ping_frame(fh, ops, sink),
            FrameType::WindowUpdate => self.on_window_update_frame(fh, ops, sink),
            FrameType::RstStream => self.on_rst_stream_frame(fh, ops, sink),
            FrameType::Goaway => self.on_goaway_frame(fh, ops, sink),
            FrameType::Headers => self.on_headers_frame(fh, ops, sink),
            FrameType::Continuation => self.on_continuation_frame(fh, ops, sink),
            FrameType::Data => self.on_data_frame(fh, ops, sink),
            _ => {
                let _ = self.rx.consume(fh.len, ops);
                false
            },
        };
        proof {
            let r0 = crate::h2_buf::refs_of(old(self).rx_segs());
            let n = fh.len as int;
            assert(crate::h2_buf::refs_of(mid.rx_segs()).skip(n) =~= r0.skip(9 + n));
            assert(crate::h2_buf::refs_of(mid.rx_segs()).take(n) =~= r0.subrange(9, 9 + n));
            if n >= 1 && rx_prefix(ops_mid, mid.rx_segs(), 1)[0] + 1 <= n {
                assert(rx_prefix(ops_mid, mid.rx_segs(), 1)[0] == rx_prefix(*old(ops), old(self).rx_segs(), 9 + n)[9]);
                assert(crate::h2_buf::refs_of(mid.rx_segs()).subrange(1, n - rx_prefix(ops_mid, mid.rx_segs(), 1)[0])
                    =~= r0.subrange(10, 9 + n - rx_prefix(*old(ops), old(self).rx_segs(), 9 + n)[9]));
            }
            if n >= 4 {
                assert(rx_prefix(ops_mid, mid.rx_segs(), 4) =~= rx_prefix(*old(ops), old(self).rx_segs(), 9 + n).subrange(9, 13));
            }
            if n >= 8 {
                assert(rx_prefix(ops_mid, mid.rx_segs(), n).subrange(4, 8)
                    =~= rx_prefix(*old(ops), old(self).rx_segs(), 9 + n).subrange(13, 17));
            }
            assert(rx_prefix(ops_mid, mid.rx_segs(), n) =~= rx_prefix(*old(ops), old(self).rx_segs(), 9 + n).subrange(9, 9 + n));
            if n == 8 {
                assert(rx_prefix(ops_mid, mid.rx_segs(), 8) =~= rx_prefix(*old(ops), old(self).rx_segs(), 9 + n).subrange(9, 17));
            }
        }
        if stop {
            FrameRead::Stopped
        } else {
            FrameRead::Read
        }
    }

    /// Reads what has arrived: up to 128 frames, each handled by type.
    /// Reading stops at an incomplete frame, and after an error, which is
    /// reported to the sink (a connection error with GOAWAY queued).  The
    /// first frame must be SETTINGS, and a header block waiting for
    /// CONTINUATION admits nothing else; frames of other types are skipped.
    #[verifier::spinoff_prover]
    pub fn pump<O: BufOps, S: UpstreamSink>(&mut self, now_ns: u64, ops: &mut O, sink: &mut S)
        requires
            old(self).wf(),
            old(self).owned_by(*old(ops)),
        ensures
            final(self).kept_from(old(self), *final(ops), *old(ops)),
            final(self).owned_by(*final(ops)),
            up_events_extend(old(sink).events(), final(sink).events()),
            exists|tr: Seq<(UpstreamH2, O, Seq<UpEvent>)>|
                #[trigger] up_pump_trace(*final(self), final(sink).events(), tr) && tr[0] == (
                    *old(self),
                    *old(ops),
                    old(sink).events(),
                ),
    {
        let ghost start = (*self, *ops, sink.events());
        let ghost mut tr: Seq<(UpstreamH2, O, Seq<UpEvent>)> = seq![start];
        let mut frames: usize = 0;
        while frames < 128
            invariant
                self.kept_from(old(self), *ops, *old(ops)),
                old(self).owned_by(*old(ops)),
                self.owned_by(*ops),
                frames <= 128,
                tr.len() == frames + 1,
                tr[0] == start,
                start == (*old(self), *old(ops), old(sink).events()),
                tr.last() == (*self, *ops, sink.events()),
                up_frames_read(tr),
                up_events_extend(old(sink).events(), sink.events()),
            decreases 128 - frames,
        {
            let r = self.read_frame(ops, sink);
            match r {
                FrameRead::Read => {},
                _ => {
                    proof {
                        assert(up_pump_trace(*self, sink.events(), tr));
                    }
                    return;
                },
            }
            proof {
                let tr0 = tr;
                tr = tr.push((*self, *ops, sink.events()));
                assert forall|k: int| 0 <= k < tr.len() - 1 implies #[trigger] up_frame_read(
                    tr[k].0, tr[k + 1].0, tr[k].1, tr[k].2, tr[k + 1].2, FrameRead::Read,
                ) by {
                    if k < tr0.len() - 1 {
                        assert(tr[k] == tr0[k] && tr[k + 1] == tr0[k + 1]);
                    }
                }
            }
            frames = frames + 1;
        }
        proof {
            assert(up_pump_trace(*self, sink.events(), tr));
        }
    }
}

} // verus!
