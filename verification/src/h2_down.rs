//! The server side of an HTTP/2 connection with a client: frame parsing,
//! stream lifecycle, flow control and response framing.  Request bodies are
//! handed on without copying (as chains of received-buffer segments); only
//! header blocks are copied.
use vstd::prelude::*;
use std::collections::VecDeque;

use crate::h2_buf::{count_id, covered, lemma_count_nonneg, BufChain, BufOps, BufSeg, RxChunk, RxQueue};
use crate::h2_error::{code_of_value, code_value, H2Code, H2Error};
use crate::h2_flow::ConnKey;
use crate::h2_frame::{
    effective_max_frame, frame_type_of_byte, header_bytes, parsed_len, parsed_stream_id, preface, preface_bytes, FrameHeader, FrameType, FLAG_ACK, FLAG_END_HEADERS, FLAG_END_STREAM,
    FLAG_PADDED, FLAG_PRIORITY, FRAME_HEADER_LEN,
};
use crate::h2_hpack::{header_pairs, Header, HeaderBlockLimits, HpackDecoder, HpackEncoder};
use crate::h2_settings::{default_settings, lemma_apply_keeps_valid, settings_bytes, settings_valid, Settings};
use crate::h2_streams::{Stream, StreamSet, StreamState, UpLink, MAX_STREAM_SET_CAP};
use crate::h2_request::{opt_view, request_of, validate_and_build_request};

verus! {

/// Flow-control credit a sent DATA frame carries back once written: the
/// bytes it returns to the connection and stream they came from.
#[derive(Clone, Copy, Debug)]
pub enum Credit {
    ToDownstream { conn: ConnKey, sid: u32, bytes: u32 },
    ToUpstream { conn: ConnKey, sid: u32, bytes: u32 },
}

/// One item queued for the socket.
#[derive(Debug)]
pub enum TxItem {
    /// Bytes sent as they are (a client connection preface).
    Raw { bytes: Vec<u8> },
    /// A frame: nine header bytes and a small copied payload.
    FrameBytes { header: [u8; 9], payload: Vec<u8> },
    /// A DATA frame whose payload stays in received buffers; its credit is
    /// returned once the payload has been written.
    FrameData { header: [u8; 9], payload: BufChain, credit: Option<Credit> },
}

/// The request part of a HEADERS block.
#[derive(Debug)]
pub struct RequestHead {
    pub method: Vec<u8>,
    pub scheme: Option<Vec<u8>>,
    pub authority: Option<Vec<u8>>,
    pub path: Option<Vec<u8>>,
    pub headers: Vec<Header>,
}

/// One thing a downstream connection hands its sink.
pub enum DownEvent {
    Headers { down: ConnKey, sid: u32, end_stream: bool, head: RequestHead },
    Data { down: ConnKey, sid: u32, end_stream: bool, data: BufChain },
    Reset { down: ConnKey, sid: u32, code: H2Code },
    Goaway { down: ConnKey, last_sid: u32, code: H2Code },
    ConnError { down: ConnKey, err: H2Error },
}

/// Where a downstream connection delivers what it parses.
pub trait DownstreamSink {
    /// Everything handed to the sink so far, oldest first.
    /// An implementation defines it from its state; the empty sequence here
    /// is a placeholder, there only so that an implementation outside
    /// `verus!` compiles, and one that keeps it cannot meet the contracts
    /// below, which extend it.
    closed spec fn events(&self) -> Seq<DownEvent> {
        Seq::empty()
    }

    fn on_request_headers(&mut self, down: ConnKey, sid: u32, end_stream: bool, head: RequestHead)
        ensures
            final(self).events() == old(self).events().push(DownEvent::Headers { down, sid, end_stream, head }),
    ;

    fn on_request_data(&mut self, down: ConnKey, sid: u32, end_stream: bool, data: BufChain)
        requires
            data.wf(),
        ensures
            final(self).events() == old(self).events().push(DownEvent::Data { down, sid, end_stream, data }),
    ;

    fn on_rst_stream(&mut self, down: ConnKey, sid: u32, code: H2Code)
        ensures
            final(self).events() == old(self).events().push(DownEvent::Reset { down, sid, code }),
    ;

    fn on_goaway(&mut self, down: ConnKey, last_sid: u32, code: H2Code)
        ensures
            final(self).events() == old(self).events().push(DownEvent::Goaway { down, last_sid, code }),
    ;

    fn on_conn_error(&mut self, down: ConnKey, err: H2Error)
        ensures
            final(self).events() == old(self).events().push(DownEvent::ConnError { down, err }),
    ;
}

/// `after` is `before` with one connection error of code `code` for
/// connection `key` handed on.
pub open spec fn down_error_event(before: Seq<DownEvent>, after: Seq<DownEvent>, key: ConnKey, code: H2Code) -> bool {
    &&& after.len() == before.len() + 1
    &&& after.drop_last() =~= before
    &&& after.last() matches DownEvent::ConnError { down, err } && down == key && err.code == code
}

/// `after` is `before` with one DATA hand-off of stream `sid` of connection
/// `key`, whose chain holds exactly the byte references `refs`.
pub open spec fn down_data_event(
    before: Seq<DownEvent>,
    after: Seq<DownEvent>,
    key: ConnKey,
    sid: u32,
    end_stream: bool,
    refs: Seq<(u16, int)>,
) -> bool {
    &&& after.len() == before.len() + 1
    &&& after.drop_last() =~= before
    &&& after.last() matches DownEvent::Data { down, sid: s, end_stream: e, data }
        && down == key && s == sid && e == end_stream && data.refs() == refs
}

/// `after` is `before` with zero or more events added at the end.
pub open spec fn down_events_extend(before: Seq<DownEvent>, after: Seq<DownEvent>) -> bool {
    after.len() >= before.len() && after.take(before.len() as int) =~= before
}

/// `h` is the request that the header list `hs` describes.
pub open spec fn head_matches(h: RequestHead, hs: Seq<(Seq<u8>, Seq<u8>)>) -> bool {
    request_of(hs) matches Ok(st) && h.method@ == st.1.unwrap() && opt_view(h.scheme) == st.2
        && opt_view(h.authority) == st.3 && opt_view(h.path) == st.4 && header_pairs(h.headers@) == st.5
}

/// `after` is `before` with one request head of stream `sid` of connection
/// `key` handed on, the request of some decoded header list.
pub open spec fn down_headers_event(before: Seq<DownEvent>, after: Seq<DownEvent>, key: ConnKey, sid: u32, end_stream: bool) -> bool {
    &&& after.len() == before.len() + 1
    &&& after.drop_last() =~= before
    &&& after.last() matches DownEvent::Headers { down, sid: s, end_stream: e, head }
        && down == key && s == sid && e == end_stream && exists|hs: Seq<(Seq<u8>, Seq<u8>)>| #[trigger] head_matches(head, hs)
}

/// `after` is `before` with one connection error for connection `key`.
pub open spec fn down_some_error(before: Seq<DownEvent>, after: Seq<DownEvent>, key: ConnKey) -> bool {
    &&& after.len() == before.len() + 1
    &&& after.drop_last() =~= before
    &&& after.last() matches DownEvent::ConnError { down, .. } && down == key
}

/// A connection error with code `code` ended reading: GOAWAY is queued on
/// `after` and the error is handed on.
pub open spec fn down_failed(
    before: DownstreamH2,
    after: DownstreamH2,
    ev_before: Seq<DownEvent>,
    ev_after: Seq<DownEvent>,
    code: H2Code,
) -> bool {
    after.goaway_after(&before, code) && down_error_event(ev_before, ev_after, before.conn_key(), code)
}

/// Response body bytes waiting for send window.
#[derive(Debug)]
pub struct PendingData {
    pub sid: u32,
    pub end_stream: bool,
    pub data: BufChain,
    pub credit: Option<Credit>,
}

// ------------------------------------------------------------------- frames

/// `item` is the frame `h` with payload `payload`.
pub open spec fn is_frame(item: TxItem, h: FrameHeader, payload: Seq<u8>) -> bool {
    item matches TxItem::FrameBytes { header, payload: p } && header@ == header_bytes(h) && p@
        == payload
}

/// `new` is `old` with the frame `h`/`payload` queued at the end.
pub open spec fn queued(old: Seq<TxItem>, new: Seq<TxItem>, h: FrameHeader, payload: Seq<u8>) -> bool {
    &&& new.len() == old.len() + 1
    &&& new.take(old.len() as int) == old
    &&& is_frame(new.last(), h, payload)
}

pub open spec fn control_header(len: u32, ty: FrameType, flags: u8, sid: u32) -> FrameHeader {
    FrameHeader { len, ty, flags, stream_id: sid }
}

/// Big-endian bytes of a 32-bit value.
pub open spec fn be32(v: u32) -> Seq<u8> {
    seq![(v / 0x100_0000) as u8, (v / 0x1_0000 % 0x100) as u8, (v / 0x100 % 0x100) as u8, (v % 0x100) as u8]
}

pub fn be32_bytes(v: u32) -> (r: Vec<u8>)
    ensures
        r@ == be32(v),
{
    proof {
        assert((v >> 24) as u8 == (v / 0x100_0000) as u8) by (bit_vector);
        assert((v >> 16) as u8 == (v / 0x1_0000 % 0x100) as u8) by (bit_vector);
        assert((v >> 8) as u8 == (v / 0x100 % 0x100) as u8) by (bit_vector);
        assert(v as u8 == (v % 0x100) as u8) by (bit_vector);
    }
    let r = vec![(v >> 24) as u8, (v >> 16) as u8, (v >> 8) as u8, v as u8];
    assert(r@ =~= be32(v));
    r
}

/// The stream table after this side ends its half of stream `sid`: an open
/// (or idle) stream becomes half closed (local); a stream the peer has ended
/// already is closed and dropped.
/// Ending one half of stream `sid` closes it: it is tracked and its other
/// half has already ended.
pub open spec fn end_closes(m: Map<u32, Stream>, sid: u32) -> bool {
    m.contains_key(sid) && !(m[sid].state is Open || m[sid].state is Idle)
}

pub open spec fn after_local_end(m: Map<u32, Stream>, sid: u32) -> Map<u32, Stream> {
    if !m.contains_key(sid) {
        m
    } else {
        let st = m[sid];
        match st.state {
            StreamState::Open | StreamState::Idle => m.insert(
                sid,
                Stream { state: StreamState::HalfClosedLocal, ..st },
            ),
            _ => m.remove(sid),
        }
    }
}

/// The stream table after the peer ends its half of stream `sid`.
pub open spec fn after_remote_end(m: Map<u32, Stream>, sid: u32) -> Map<u32, Stream> {
    if !m.contains_key(sid) {
        m
    } else {
        let st = m[sid];
        match st.state {
            StreamState::Open | StreamState::Idle => m.insert(
                sid,
                Stream { state: StreamState::HalfClosedRemote, ..st },
            ),
            _ => m.remove(sid),
        }
    }
}

/// Once both sides have ended a stream that was open, it is gone.
pub proof fn lemma_both_ends_close(m: Map<u32, Stream>, sid: u32)
    requires
        m.contains_key(sid),
        m[sid].state == StreamState::Open,
    ensures
        !after_local_end(after_remote_end(m, sid), sid).contains_key(sid),
        !after_remote_end(after_local_end(m, sid), sid).contains_key(sid),
        after_local_end(after_remote_end(m, sid), sid) == m.remove(sid),
        after_remote_end(after_local_end(m, sid), sid) == m.remove(sid),
{
    assert(after_local_end(after_remote_end(m, sid), sid) =~= m.remove(sid));
    assert(after_remote_end(after_local_end(m, sid), sid) =~= m.remove(sid));
}

// --------------------------------------------------------------- connection

/// The server side of one HTTP/2 connection.
pub struct DownstreamH2 {
    pub key: ConnKey,
    rx: RxQueue,
    tx: VecDeque<TxItem>,
    preface_off: usize,
    need_first_settings: bool,
    /// The peer's settings (what this side respects when sending).
    pub peer: Settings,
    /// The settings this side advertises.
    pub local: Settings,
    max_frame_size_in: u32,
    max_frame_size_out: u32,
    send_conn_win: i64,
    recv_conn_win: i64,
    streams: StreamSet,
    last_peer_sid: u32,
    hdec: HpackDecoder,
    henc: HpackEncoder,
    hpack_limits: HeaderBlockLimits,
    cont: Option<u32>,
    header_scratch: Vec<u8>,
    pending: VecDeque<PendingData>,
}

impl DownstreamH2 {
    pub closed spec fn peer_settings(&self) -> Settings {
        self.peer
    }

    pub closed spec fn local_settings(&self) -> Settings {
        self.local
    }

    pub closed spec fn conn_key(&self) -> ConnKey {
        self.key
    }

    pub closed spec fn tx_items(&self) -> Seq<TxItem> {
        self.tx@
    }

    pub closed spec fn pending_items(&self) -> Seq<PendingData> {
        self.pending@
    }

    pub closed spec fn stream_map(&self) -> Map<u32, Stream> {
        self.streams.by_sid()
    }

    pub closed spec fn stream_items(&self) -> Seq<Stream> {
        self.streams.items()
    }

    pub closed spec fn stream_limit(&self) -> nat {
        self.streams.limit()
    }

    pub closed spec fn rx_segs(&self) -> Seq<BufSeg> {
        self.rx.segs()
    }

    pub closed spec fn conn_send_window(&self) -> i64 {
        self.send_conn_win
    }

    pub closed spec fn conn_recv_window(&self) -> i64 {
        self.recv_conn_win
    }

    pub closed spec fn last_stream_id(&self) -> u32 {
        self.last_peer_sid
    }

    pub closed spec fn frame_size_out(&self) -> u32 {
        self.max_frame_size_out
    }

    pub closed spec fn frame_size_in(&self) -> u32 {
        self.max_frame_size_in
    }

    pub closed spec fn continuation_of(&self) -> Option<u32> {
        self.cont
    }

    pub closed spec fn preface_seen(&self) -> nat {
        self.preface_off as nat
    }

    pub closed spec fn awaiting_settings(&self) -> bool {
        self.need_first_settings
    }

    pub closed spec fn wf(&self) -> bool {
        &&& self.rx.wf()
        &&& self.streams.wf()
        &&& forall|k: u32| #[trigger] self.streams.by_sid().contains_key(k) ==> k <= self.last_peer_sid
        &&& self.preface_off <= 24
        &&& settings_valid(self.peer)
        &&& 16_384 <= self.max_frame_size_out <= 16_777_215
        &&& 16_384 <= self.max_frame_size_in <= 16_777_215
        &&& forall|i: int| 0 <= i < self.tx@.len() ==> tx_item_wf(#[trigger] self.tx@[i])
        &&& forall|i: int| 0 <= i < self.pending@.len() ==> (#[trigger] self.pending@[i]).data.wf()
    }

    /// Stream, flow-control and settings state are the same in `self` and
    /// `other`.
    pub open spec fn same_protocol_state(&self, other: &Self) -> bool {
        &&& self.stream_map() == other.stream_map()
        &&& self.stream_items() == other.stream_items()
        &&& self.conn_send_window() == other.conn_send_window()
        &&& self.conn_recv_window() == other.conn_recv_window()
        &&& self.last_stream_id() == other.last_stream_id()
        &&& self.peer_settings() == other.peer_settings()
        &&& self.local_settings() == other.local_settings()
        &&& self.conn_key() == other.conn_key()
        &&& self.pending_items() == other.pending_items()
        &&& self.rx_segs() == other.rx_segs()
        &&& self.continuation_of() == other.continuation_of()
        &&& self.stream_limit() == other.stream_limit()
        &&& self.preface_seen() == other.preface_seen()
        &&& self.awaiting_settings() == other.awaiting_settings()
        &&& self.frame_size_out() == other.frame_size_out()
        &&& self.frame_size_in() == other.frame_size_in()
    }

    /// A connection for client `key` accepting at most `max_concurrent`
    /// streams at once (at least one); this side's SETTINGS frame is queued
    /// at once.
    pub fn new(key: ConnKey, max_concurrent: usize, seed: u64) -> (r: Self)
        requires
            max_concurrent <= MAX_STREAM_SET_CAP,
        ensures
            r.wf(),
            r.conn_key() == key,
            r.local_settings() == (Settings {
                enable_push: false,
                max_concurrent_streams: if max_concurrent == 0 {
                    1
                } else {
                    max_concurrent as u32
                },
                ..default_settings()
            }),
            r.peer_settings() == default_settings(),
            r.conn_send_window() == 65_535,
            r.conn_recv_window() == 65_535,
            r.stream_map() == Map::<u32, Stream>::empty(),
            r.stream_items().len() == 0,
            r.stream_limit() == if max_concurrent == 0 {
                1
            } else {
                max_concurrent as int
            },
            r.last_stream_id() == 0,
            r.rx_segs().len() == 0,
            r.pending_items().len() == 0,
            r.continuation_of() is None,
            r.preface_seen() == 0,
            r.awaiting_settings(),
            r.tx_items().len() == 1,
            is_frame(
                r.tx_items()[0],
                control_header(36, FrameType::Settings, 0, 0),
                settings_bytes(r.local_settings()),
            ),
    {
        let mut local = Settings::default_settings();
        local.enable_push = false;
        local.max_concurrent_streams = if max_concurrent == 0 {
            1
        } else {
            max_concurrent as u32
        };
        let peer = Settings::default_settings();
        let limits = HeaderBlockLimits::default();
        let mut s = DownstreamH2 {
            key,
            rx: RxQueue::new(),
            tx: VecDeque::new(),
            preface_off: 0,
            need_first_settings: true,
            peer,
            local,
            max_frame_size_in: 16_384,
            max_frame_size_out: 16_384,
            send_conn_win: 65_535,
            recv_conn_win: 65_535,
            streams: StreamSet::new(max_concurrent, seed),
            last_peer_sid: 0,
            hdec: HpackDecoder::new(limits),
            henc: HpackEncoder::default(),
            hpack_limits: limits,
            cont: None,
            header_scratch: Vec::new(),
            pending: VecDeque::new(),
        };
        s.queue_settings();
        proof {
            assert(settings_bytes(s.local).len() == 36);
        }
        s
    }

    /// Adds received bytes to the read queue (an empty chunk is ignored).
    pub fn push_rx(&mut self, chunk: RxChunk)
        requires
            old(self).wf(),
            chunk.off + chunk.len <= u32::MAX,
            crate::h2_buf::refs_of(old(self).rx_segs()).len() + chunk.len <= u32::MAX,
        ensures
            final(self).wf(),
            final(self).same_tx(old(self)),
            final(self).rx_segs() == if chunk.len == 0 {
                old(self).rx_segs()
            } else {
                old(self).rx_segs().push(BufSeg { buf_id: chunk.buf_id, off: chunk.off, len: chunk.len })
            },
    {
        self.rx.push_chunk(chunk);
    }

    /// Everything but the read queue is the same in `self` and `other`.
    pub open spec fn same_tx(&self, other: &Self) -> bool {
        &&& self.tx_items() == other.tx_items()
        &&& self.stream_map() == other.stream_map()
        &&& self.stream_items() == other.stream_items()
        &&& self.conn_send_window() == other.conn_send_window()
        &&& self.conn_recv_window() == other.conn_recv_window()
        &&& self.last_stream_id() == other.last_stream_id()
        &&& self.peer_settings() == other.peer_settings()
        &&& self.local_settings() == other.local_settings()
        &&& self.conn_key() == other.conn_key()
        &&& self.pending_items() == other.pending_items()
    }

    // ----------------------------------------------------------- outbound

    fn queue_frame(&mut self, h: FrameHeader, payload: Vec<u8>)
        requires
            old(self).wf(),
        ensures
            final(self).wf(),
            queued(old(self).tx_items(), final(self).tx_items(), h, payload@),
            final(self).same_protocol_state(old(self)),
            final(self).frame_size_out() == old(self).frame_size_out(),
    {
        let mut hdr = [0u8; 9];
        h.write_into(&mut hdr);
        self.tx.push_back(TxItem::FrameBytes { header: hdr, payload });
        proof {
            assert(self.tx@.take(old(self).tx@.len() as int) =~= old(self).tx@);
        }
    }

    fn queue_settings(&mut self)
        requires
            old(self).wf(),
        ensures
            final(self).wf(),
            queued(
                old(self).tx_items(),
                final(self).tx_items(),
                control_header(36, FrameType::Settings, 0, 0),
                settings_bytes(old(self).local_settings()),
            ),
            final(self).same_protocol_state(old(self)),
    {
        let mut payload: Vec<u8> = Vec::new();
        self.local.encode_into(&mut payload);
        proof {
            assert(payload@ =~= settings_bytes(self.local));
        }
        self.queue_frame(
            FrameHeader { len: payload.len() as u32, ty: FrameType::Settings, flags: 0, stream_id: 0 },
            payload,
        );
    }
}

/// A queued item is well formed when its DATA payload chain is.
pub open spec fn tx_item_wf(item: TxItem) -> bool {
    match item {
        TxItem::FrameData { payload, .. } => payload.wf(),
        _ => true,
    }
}

impl DownstreamH2 {
    fn queue_settings_ack(&mut self)
        requires
            old(self).wf(),
        ensures
            final(self).wf(),
            queued(
                old(self).tx_items(),
                final(self).tx_items(),
                control_header(0, FrameType::Settings, FLAG_ACK, 0),
                Seq::empty(),
            ),
            final(self).same_protocol_state(old(self)),
    {
        self.queue_frame(
            FrameHeader { len: 0, ty: FrameType::Settings, flags: FLAG_ACK, stream_id: 0 },
            Vec::new(),
        );
    }

    fn queue_ping_ack(&mut self, payload8: Vec<u8>)
        requires
            old(self).wf(),
        ensures
            final(self).wf(),
            queued(
                old(self).tx_items(),
                final(self).tx_items(),
                control_header(8, FrameType::Ping, FLAG_ACK, 0),
                payload8@,
            ),
            final(self).same_protocol_state(old(self)),
    {
        self.queue_frame(
            FrameHeader { len: 8, ty: FrameType::Ping, flags: FLAG_ACK, stream_id: 0 },
            payload8,
        );
    }

    fn queue_goaway(&mut self, last_sid: u32, code: H2Code)
        requires
            old(self).wf(),
        ensures
            final(self).wf(),
            queued(
                old(self).tx_items(),
                final(self).tx_items(),
                control_header(8, FrameType::Goaway, 0, 0),
                be32((last_sid as int % 0x8000_0000) as u32) + be32(code_value(code)),
            ),
            final(self).same_protocol_state(old(self)),
    {
        let mut payload = be32_bytes(last_sid & 0x7fff_ffff);
        let c = be32_bytes(code.as_u32());
        let mut i: usize = 0;
        proof {
            assert((last_sid & 0x7fff_ffff) == (last_sid as int % 0x8000_0000) as u32) by (bit_vector);
        }
        let ghost first = payload@;
        while i < 4
            invariant
                i <= 4,
                c@.len() == 4,
                payload@ == first + c@.take(i as int),
            decreases 4 - i,
        {
            payload.push(c[i]);
            i = i + 1;
            proof {
                assert(payload@ =~= first + c@.take(i as int));
            }
        }
        proof {
            assert(c@.take(4) =~= c@);
        }
        self.queue_frame(
            FrameHeader { len: 8, ty: FrameType::Goaway, flags: 0, stream_id: 0 },
            payload,
        );
    }

    fn queue_rst_stream(&mut self, sid: u32, code: H2Code)
        requires
            old(self).wf(),
        ensures
            final(self).wf(),
            queued(
                old(self).tx_items(),
                final(self).tx_items(),
                control_header(4, FrameType::RstStream, 0, sid),
                be32(code_value(code)),
            ),
            final(self).same_protocol_state(old(self)),
    {
        let payload = be32_bytes(code.as_u32());
        self.queue_frame(
            FrameHeader { len: 4, ty: FrameType::RstStream, flags: 0, stream_id: sid },
            payload,
        );
    }

    fn queue_window_update(&mut self, sid: u32, delta: u32)
        requires
            old(self).wf(),
        ensures
            final(self).wf(),
            delta == 0 ==> final(self).tx_items() == old(self).tx_items(),
            delta != 0 ==> queued(
                old(self).tx_items(),
                final(self).tx_items(),
                control_header(4, FrameType::WindowUpdate, 0, sid),
                be32((delta as int % 0x8000_0000) as u32),
            ),
            final(self).same_protocol_state(old(self)),
    {
        if delta == 0 {
            return;
        }
        proof {
            assert((delta & 0x7fff_ffff) == (delta as int % 0x8000_0000) as u32) by (bit_vector);
        }
        let payload = be32_bytes(delta & 0x7fff_ffff);
        self.queue_frame(
            FrameHeader { len: 4, ty: FrameType::WindowUpdate, flags: 0, stream_id: sid },
            payload,
        );
    }

    /// This side ends its half of stream `sid`.
    pub fn on_local_end_stream(&mut self, sid: u32)
        requires
            old(self).wf(),
        ensures
            final(self).wf(),
            final(self).stream_map() == after_local_end(old(self).stream_map(), sid),
            final(self).same_except_streams(old(self)),
            final(self).stream_items().len() == old(self).stream_items().len() - if end_closes(old(self).stream_map(), sid) {
                1int
            } else {
                0int
            },
    {
        proof {
            self.streams.lemma_sids_match();
        }
        let should_remove = match self.streams.get_mut(sid) {
            Some(st) => match st.state {
                StreamState::Open | StreamState::Idle => {
                    st.state = StreamState::HalfClosedLocal;
                    false
                },
                _ => true,
            },
            None => false,
        };
        if should_remove {
            let _ = self.streams.remove(sid);
        }
        proof {
            assert(self.stream_map() =~= after_local_end(old(self).stream_map(), sid));
        }
    }

    /// The peer ends its half of stream `sid`.
    pub fn on_remote_end_stream(&mut self, sid: u32)
        requires
            old(self).wf(),
        ensures
            final(self).wf(),
            final(self).stream_map() == after_remote_end(old(self).stream_map(), sid),
            final(self).same_except_streams(old(self)),
            final(self).stream_items().len() == old(self).stream_items().len() - if end_closes(old(self).stream_map(), sid) {
                1int
            } else {
                0int
            },
    {
        proof {
            self.streams.lemma_sids_match();
        }
        let should_remove = match self.streams.get_mut(sid) {
            Some(st) => match st.state {
                StreamState::Open | StreamState::Idle => {
                    st.state = StreamState::HalfClosedRemote;
                    false
                },
                _ => true,
            },
            None => false,
        };
        if should_remove {
            let _ = self.streams.remove(sid);
        }
        proof {
            assert(self.stream_map() =~= after_remote_end(old(self).stream_map(), sid));
        }
    }

    /// Everything but the stream table is the same in `self` and `other`.
    pub open spec fn same_except_streams(&self, other: &Self) -> bool {
        &&& self.tx_items() == other.tx_items()
        &&& self.conn_send_window() == other.conn_send_window()
        &&& self.conn_recv_window() == other.conn_recv_window()
        &&& self.last_stream_id() == other.last_stream_id()
        &&& self.peer_settings() == other.peer_settings()
        &&& self.local_settings() == other.local_settings()
        &&& self.conn_key() == other.conn_key()
        &&& self.pending_items() == other.pending_items()
        &&& self.rx_segs() == other.rx_segs()
        &&& self.continuation_of() == other.continuation_of()
        &&& self.stream_limit() == other.stream_limit()
        &&& self.preface_seen() == other.preface_seen()
        &&& self.awaiting_settings() == other.awaiting_settings()
        &&& self.frame_size_out() == other.frame_size_out()
        &&& self.frame_size_in() == other.frame_size_in()
    }

    /// Resets stream `sid` with `code` and ends this side of it.  Stream 0
    /// cannot be reset.
    pub fn send_rst_stream(&mut self, sid: u32, code: H2Code) -> (r: Result<(), H2Error>)
        requires
            old(self).wf(),
        ensures
            final(self).wf(),
            sid == 0 ==> (r matches Err(e) && e.code == H2Code::ProtocolError) && *final(self) == *old(self),
            sid != 0 ==> {
                &&& r is Ok
                &&& queued(
                    old(self).tx_items(),
                    final(self).tx_items(),
                    control_header(4, FrameType::RstStream, 0, sid),
                    be32(code_value(code)),
                )
                &&& final(self).stream_map() == after_local_end(old(self).stream_map(), sid)
            },
    {
        if sid == 0 {
            return Err(H2Error::new(H2Code::ProtocolError, "RST_STREAM on stream 0"));
        }
        self.queue_rst_stream(sid, code);
        self.on_local_end_stream(sid);
        Ok(())
    }
}

/// `a + b`, held within the range of `i64`.
pub open spec fn sat_i64(v: int) -> i64 {
    if v > i64::MAX {
        i64::MAX
    } else if v < i64::MIN {
        i64::MIN
    } else {
        v as i64
    }
}

pub fn add_i64(a: i64, b: i64) -> (r: i64)
    ensures
        r == sat_i64(a + b),
{
    match a.checked_add(b) {
        Some(x) => x,
        None => if b > 0 {
            i64::MAX
        } else {
            i64::MIN
        },
    }
}

/// The CONTINUATION frames that carry bytes `off..total` of a header block,
/// each at most `max` bytes: (header, (offset, length)).
pub open spec fn cont_frames(sid: u32, total: nat, off: nat, max: nat) -> Seq<(FrameHeader, (nat, nat))>
    decreases total - off,
{
    if off >= total || max == 0 {
        Seq::empty()
    } else {
        let take: nat = if total - off <= max {
            (total - off) as nat
        } else {
            max
        };
        let flags: u8 = if off + take == total {
            FLAG_END_HEADERS
        } else {
            0
        };
        seq![(FrameHeader { len: take as u32, ty: FrameType::Continuation, flags, stream_id: sid }, (off, take))]
            + cont_frames(sid, total, off + take, max)
    }
}

/// The frames that carry a header block of `total` bytes: a HEADERS frame
/// with the first `max` bytes, then CONTINUATION frames; END_HEADERS marks
/// the last, END_STREAM (when asked) the first.
pub open spec fn header_frames(sid: u32, end_stream: bool, total: nat, max: nat) -> Seq<(FrameHeader, (nat, nat))> {
    let first: nat = if total <= max {
        total
    } else {
        max
    };
    let flags: u8 = (if end_stream {
        FLAG_END_STREAM
    } else {
        0u8
    }) | (if first == total {
        FLAG_END_HEADERS
    } else {
        0u8
    });
    seq![(FrameHeader { len: first as u32, ty: FrameType::Headers, flags, stream_id: sid }, (0nat, first))]
        + cont_frames(sid, total, first, max)
}

/// `new` is `old` with the frames `fs` queued, each carrying its range of
/// `block`.
pub open spec fn queued_all(old: Seq<TxItem>, new: Seq<TxItem>, fs: Seq<(FrameHeader, (nat, nat))>, block: Seq<u8>) -> bool {
    &&& new.len() == old.len() + fs.len()
    &&& new.take(old.len() as int) == old
    &&& forall|i: int|
        0 <= i < fs.len() ==> is_frame(
            #[trigger] new[old.len() + i],
            fs[i].0,
            block.subrange(fs[i].1.0 as int, (fs[i].1.0 + fs[i].1.1) as int),
        )
}

/// The frames of a header block tile it: each starts where the one before
/// ends, the last ends with the block, none is longer than `max`, and only
/// the last carries END_HEADERS.
pub proof fn lemma_cont_frames_tile(sid: u32, total: nat, off: nat, max: nat)
    requires
        0 < max <= u32::MAX,
        off <= total,
    ensures
        ({
            let fs = cont_frames(sid, total, off, max);
            &&& off < total ==> fs.len() > 0 && fs[0].1.0 == off
            &&& off == total ==> fs.len() == 0
            &&& forall|i: int| 0 <= i < fs.len() ==> #[trigger] fs[i].1.1 <= max && fs[i].1.1 > 0
                && fs[i].0.len == fs[i].1.1
            &&& forall|i: int| 0 <= i < fs.len() - 1 ==> #[trigger] fs[i + 1].1.0 == fs[i].1.0 + fs[i].1.1
            &&& fs.len() > 0 ==> fs.last().1.0 + fs.last().1.1 == total
            &&& forall|i: int| 0 <= i < fs.len() ==> ((#[trigger] fs[i].0.flags == FLAG_END_HEADERS) <==> i == fs.len() - 1)
        }),
    decreases total - off,
{
    if off < total {
        let take: nat = if total - off <= max {
            (total - off) as nat
        } else {
            max
        };
        lemma_cont_frames_tile(sid, total, off + take, max);
        let fs = cont_frames(sid, total, off, max);
        let rest = cont_frames(sid, total, off + take, max);
        assert(fs == seq![fs[0]] + rest);
        assert forall|i: int| 0 <= i < fs.len() - 1 implies #[trigger] fs[i + 1].1.0 == fs[i].1.0 + fs[i].1.1 by {
            assert(fs[i + 1] == rest[i]);
            if i > 0 {
                let j = i - 1;
                assert(rest[j + 1].1.0 == rest[j].1.0 + rest[j].1.1);
                assert(fs[i] == rest[j]);
            }
            if i == 0 {
                assert(rest.len() > 0);
                assert(off + take < total);
                assert(fs[0].1 == (off, take));
                assert(rest[0].1.0 == off + take);
            }
            if i > 0 {
                assert(fs[i] == rest[i - 1]);
                assert(fs[i + 1] == rest[i]);
            }
        }
        assert forall|i: int| 0 <= i < fs.len() implies ((#[trigger] fs[i].0.flags == FLAG_END_HEADERS) <==> i == fs.len() - 1) by {
            if i > 0 {
                assert(fs[i] == rest[i - 1]);
            }
        }
        assert forall|i: int| 0 <= i < fs.len() implies #[trigger] fs[i].1.1 <= max && fs[i].1.1 > 0
            && fs[i].0.len == fs[i].1.1 by {
            if i > 0 {
                assert(fs[i] == rest[i - 1]);
            }
        }
    }
}

impl DownstreamH2 {
    /// Queues a header block as HEADERS and CONTINUATION frames no larger
    /// than the peer's frame size.
    #[verifier::rlimit(50)]
    fn queue_headers_block(&mut self, sid: u32, end_stream: bool, block: Vec<u8>)
        requires
            old(self).wf(),
        ensures
            final(self).wf(),
            queued_all(
                old(self).tx_items(),
                final(self).tx_items(),
                header_frames(sid, end_stream, block@.len(), old(self).frame_size_out() as nat),
                block@,
            ),
            final(self).same_protocol_state(old(self)),
    {
        let max = self.max_frame_size_out as usize;
        let total = block.len();
        let first_len = if total <= max { total } else { max };
        let fl: u8 = (if end_stream { FLAG_END_STREAM } else { 0u8 }) | (if first_len == total {
            FLAG_END_HEADERS
        } else {
            0u8
        });
        let ghost fs = header_frames(sid, end_stream, total as nat, max as nat);
        let ghost t0 = self.tx@;
        let first = slice_vec(&block, 0, first_len);
        self.queue_frame(
            FrameHeader { len: first_len as u32, ty: FrameType::Headers, flags: fl, stream_id: sid },
            first,
        );
        let mut off = first_len;
        let ghost mut done: int = 1;
        proof {
            assert(fs[0].0 == FrameHeader { len: first_len as u32, ty: FrameType::Headers, flags: fl, stream_id: sid });
            assert(fs.subrange(1, fs.len() as int) =~= cont_frames(sid, total as nat, first_len as nat, max as nat));
        }
        while off < total
            invariant
                self.wf(),
                max == self.max_frame_size_out,
                max >= 16_384,
                total == block@.len(),
                off <= total,
                1 <= done <= fs.len(),
                fs == header_frames(sid, end_stream, total as nat, max as nat),
                fs.subrange(done as int, fs.len() as int) == cont_frames(sid, total as nat, off as nat, max as nat),
                queued_all(t0, self.tx@, fs.take(done as int), block@),
                self.same_protocol_state(old(self)),
            decreases total - off,
        {
            let left = total - off;
            let take = if left <= max { left } else { max };
            let fl2: u8 = if off + take == total { FLAG_END_HEADERS } else { 0u8 };
            let piece = slice_vec(&block, off, off + take);
            let ghost before = self.tx@;
            self.queue_frame(
                FrameHeader { len: take as u32, ty: FrameType::Continuation, flags: fl2, stream_id: sid },
                piece,
            );
            proof {
                lemma_cont_frames_tile(sid, total as nat, off as nat, max as nat);
                let rest = cont_frames(sid, total as nat, off as nat, max as nat);
                assert(fs.subrange(done as int, fs.len() as int)[0] == fs[done as int]);
                assert(rest[0] == fs[done as int]);
                assert(fs.subrange(done + 1, fs.len() as int) =~= rest.subrange(1, rest.len() as int));
                assert(rest.subrange(1, rest.len() as int) =~= cont_frames(sid, total as nat, (off + take) as nat, max as nat));
                assert forall|i: int| 0 <= i < fs.take(done + 1).len() implies is_frame(
                    #[trigger] self.tx@[t0.len() + i],
                    fs.take(done + 1)[i].0,
                    block@.subrange(fs.take(done + 1)[i].1.0 as int, (fs.take(done + 1)[i].1.0 + fs.take(done + 1)[i].1.1) as int),
                ) by {
                    if i < done {
                        assert(self.tx@[t0.len() + i] == before[t0.len() + i]);
                        assert(fs.take(done + 1)[i] == fs.take(done as int)[i]);
                    }
                }
                assert(self.tx@.take(t0.len() as int) =~= t0);
                done = done + 1;
            }
            off = off + take;
        }
        proof {
            assert(fs.subrange(done as int, fs.len() as int).len() == 0);
            assert(fs.take(done as int) =~= fs);
        }
    }
}

/// Queues frame `h` with `payload` at the end of `tx`.
pub fn push_frame(tx: &mut VecDeque<TxItem>, h: FrameHeader, payload: Vec<u8>)
    ensures
        queued(old(tx)@, final(tx)@, h, payload@),
{
    let mut hdr = [0u8; 9];
    h.write_into(&mut hdr);
    tx.push_back(TxItem::FrameBytes { header: hdr, payload });
    proof {
        assert(tx@.take(old(tx)@.len() as int) =~= old(tx)@);
    }
}

/// Queues a header block at the end of `tx` as HEADERS and CONTINUATION
/// frames of at most `max` bytes.
#[verifier::rlimit(80)]
#[verifier::spinoff_prover]
pub fn push_headers_block(tx: &mut VecDeque<TxItem>, max: u32, sid: u32, end_stream: bool, block: Vec<u8>)
    requires
        16_384 <= max <= 16_777_215,
    ensures
        queued_all(old(tx)@, final(tx)@, header_frames(sid, end_stream, block@.len(), max as nat), block@),
{
    let max = max as usize;
    let total = block.len();
    let first_len = if total <= max { total } else { max };
    let fl: u8 = (if end_stream { FLAG_END_STREAM } else { 0u8 }) | (if first_len == total {
        FLAG_END_HEADERS
    } else {
        0u8
    });
    let ghost fs = header_frames(sid, end_stream, total as nat, max as nat);
    let ghost t0 = tx@;
    let first = slice_vec(&block, 0, first_len);
    push_frame(tx, FrameHeader { len: first_len as u32, ty: FrameType::Headers, flags: fl, stream_id: sid }, first);
    let mut off = first_len;
    let ghost mut done: int = 1;
    proof {
        assert(fs[0].0 == FrameHeader { len: first_len as u32, ty: FrameType::Headers, flags: fl, stream_id: sid });
        assert(fs.subrange(1, fs.len() as int) =~= cont_frames(sid, total as nat, first_len as nat, max as nat));
    }
    while off < total
        invariant
            max >= 16_384,
            max <= 16_777_215,
            total == block@.len(),
            off <= total,
            1 <= done <= fs.len(),
            fs == header_frames(sid, end_stream, total as nat, max as nat),
            fs.subrange(done as int, fs.len() as int) == cont_frames(sid, total as nat, off as nat, max as nat),
            queued_all(t0, tx@, fs.take(done as int), block@),
        decreases total - off,
    {
        let left = total - off;
        let take = if left <= max { left } else { max };
        let fl2: u8 = if off + take == total { FLAG_END_HEADERS } else { 0u8 };
        let piece = slice_vec(&block, off, off + take);
        let ghost before = tx@;
        push_frame(tx, FrameHeader { len: take as u32, ty: FrameType::Continuation, flags: fl2, stream_id: sid }, piece);
        proof {
            lemma_cont_frames_tile(sid, total as nat, off as nat, max as nat);
            let rest = cont_frames(sid, total as nat, off as nat, max as nat);
            assert(fs.subrange(done as int, fs.len() as int)[0] == fs[done as int]);
            assert(rest[0] == fs[done as int]);
            assert(fs.subrange(done + 1, fs.len() as int) =~= rest.subrange(1, rest.len() as int));
            assert(rest.subrange(1, rest.len() as int) =~= cont_frames(sid, total as nat, (off + take) as nat, max as nat));
            assert forall|i: int| 0 <= i < fs.take(done + 1).len() implies is_frame(
                #[trigger] tx@[t0.len() + i],
                fs.take(done + 1)[i].0,
                block@.subrange(fs.take(done + 1)[i].1.0 as int, (fs.take(done + 1)[i].1.0 + fs.take(done + 1)[i].1.1) as int),
            ) by {
                if i < done {
                    assert(tx@[t0.len() + i] == before[t0.len() + i]);
                    assert(fs.take(done + 1)[i] == fs.take(done as int)[i]);
                }
            }
            assert(tx@.take(t0.len() as int) =~= t0);
            done = done + 1;
        }
        off = off + take;
    }
    proof {
        assert(fs.subrange(done as int, fs.len() as int).len() == 0);
        assert(fs.take(done as int) =~= fs);
    }
}

/// A copy of `v[from..to]`.
pub fn slice_vec(v: &Vec<u8>, from: usize, to: usize) -> (r: Vec<u8>)
    requires
        from <= to <= v.len(),
    ensures
        r@ == v@.subrange(from as int, to as int),
{
    let mut out: Vec<u8> = Vec::new();
    let mut i = from;
    while i < to
        invariant
            from <= i <= to <= v.len(),
            out@ == v@.subrange(from as int, i as int),
        decreases to - i,
    {
        out.push(v[i]);
        i = i + 1;
        proof {
            assert(out@ =~= v@.subrange(from as int, i as int));
        }
    }
    out
}

/// The three digits of a response status, as the `:status` value.
pub open spec fn status_digits(status: u16) -> Seq<u8> {
    seq![
        (48 + (status as int / 100) % 256) as u8,
        (48 + (status as int / 10) % 10) as u8,
        (48 + status as int % 10) as u8,
    ]
}

pub open spec fn status_name() -> Seq<u8> {
    seq![58u8, 115, 116, 97, 116, 117, 115]
}

/// `st` is how a new request stream `sid` starts: open, with the peer's
/// initial window to send into and this side's to receive into.
pub open spec fn is_opened_stream(st: Stream, sid: u32, peer: Settings, local: Settings) -> bool {
    &&& st.sid == sid
    &&& st.state == StreamState::Open
    &&& st.flow.send_win == peer.initial_window_size
    &&& st.flow.recv_win == local.initial_window_size
    &&& st.deadline.instant() is None
    &&& st.empty_data_strikes == 0
    &&& st.uplink is None
}

impl DownstreamH2 {
    /// Whether stream `sid` is tracked.
    pub fn has_stream(&self, sid: u32) -> (r: bool)
        requires
            self.wf(),
        ensures
            r == self.stream_map().contains_key(sid),
    {
        self.streams.get(sid).is_some()
    }

    /// How many streams are tracked.
    pub fn stream_count(&self) -> (r: usize)
        ensures
            r == self.stream_items().len(),
    {
        self.streams.len()
    }

    /// Queues the response HEADERS of stream `sid`: `:status` first, then
    /// `headers`, HPACK-encoded and cut to the peer's frame size.  Ending the
    /// stream ends this side of it.
    pub fn send_response_headers(&mut self, sid: u32, status: u16, headers: Vec<Header>, end_stream: bool) -> (r: Result<(), H2Error>)
        requires
            old(self).wf(),
            (status as int / 100) % 256 < 208,
        ensures
            final(self).wf(),
            !old(self).stream_map().contains_key(sid) ==> (r matches Err(e) && e.code == H2Code::StreamClosed)
                && final(self).tx_items() == old(self).tx_items() && final(self).stream_map() == old(self).stream_map(),
            old(self).stream_map().contains_key(sid) ==> {
                &&& r is Ok
                &&& exists|block: Seq<u8>| queued_all(
                    old(self).tx_items(),
                    final(self).tx_items(),
                    header_frames(sid, end_stream, block.len(), old(self).frame_size_out() as nat),
                    block,
                )
                &&& final(self).stream_map() == if end_stream {
                    after_local_end(old(self).stream_map(), sid)
                } else {
                    old(self).stream_map()
                }
            },
            final(self).conn_send_window() == old(self).conn_send_window(),
            final(self).conn_recv_window() == old(self).conn_recv_window(),
            final(self).peer_settings() == old(self).peer_settings(),
            final(self).frame_size_out() == old(self).frame_size_out(),
            final(self).pending_items() == old(self).pending_items(),
            final(self).rx_segs() == old(self).rx_segs(),
            final(self).stream_items().len() == old(self).stream_items().len() - if end_stream && end_closes(
                old(self).stream_map(),
                sid,
            ) {
                1int
            } else {
                0int
            },
    {
        if self.streams.get(sid).is_none() {
            return Err(H2Error::new(H2Code::StreamClosed, "send headers on unknown stream"));
        }
        let st = status as u32;
        let d0 = ((st / 100) % 256) as u8;
        let s3 = vec![48u8 + d0, 48u8 + ((st / 10) % 10) as u8, 48u8 + (st % 10) as u8];
        let name = vec![58u8, 115, 116, 97, 116, 117, 115];
        let mut all: Vec<Header> = Vec::new();
        all.push(Header { name, value: s3 });
        let mut headers = headers;
        all.append(&mut headers);
        let block = self.henc.encode_headers(all.as_slice());
        let ghost b = block@;
        self.queue_headers_block(sid, end_stream, block);
        if end_stream {
            self.on_local_end_stream(sid);
        }
        Ok(())
    }

    /// Returns `bytes` of receive window to the peer once a request body has
    /// been forwarded: to stream `sid` when it is tracked, and to the
    /// connection, each with a WINDOW_UPDATE.
    pub fn credit_recv_window(&mut self, sid: u32, bytes: u32)
        requires
            old(self).wf(),
        ensures
            final(self).wf(),
            bytes == 0 ==> *final(self) == *old(self),
            bytes != 0 ==> {
                &&& final(self).conn_recv_window() == sat_i64(old(self).conn_recv_window() + bytes)
                &&& final(self).stream_map() == if old(self).stream_map().contains_key(sid) {
                    old(self).stream_map().insert(sid, Stream {
                        flow: crate::h2_flow::Flow {
                            recv_win: sat_i64(old(self).stream_map()[sid].flow.recv_win + bytes),
                            ..old(self).stream_map()[sid].flow
                        },
                        ..old(self).stream_map()[sid]
                    })
                } else {
                    old(self).stream_map()
                }
                &&& old(self).stream_map().contains_key(sid) ==> {
                    &&& final(self).tx_items().len() == old(self).tx_items().len() + 2
                    &&& final(self).tx_items().take(old(self).tx_items().len() as int) == old(self).tx_items()
                    &&& is_frame(
                        final(self).tx_items()[old(self).tx_items().len() as int],
                        control_header(4, FrameType::WindowUpdate, 0, sid),
                        be32((bytes as int % 0x8000_0000) as u32),
                    )
                    &&& is_frame(
                        final(self).tx_items()[old(self).tx_items().len() + 1int],
                        control_header(4, FrameType::WindowUpdate, 0, 0),
                        be32((bytes as int % 0x8000_0000) as u32),
                    )
                }
                &&& !old(self).stream_map().contains_key(sid) ==> queued(
                    old(self).tx_items(),
                    final(self).tx_items(),
                    control_header(4, FrameType::WindowUpdate, 0, 0),
                    be32((bytes as int % 0x8000_0000) as u32),
                )
            },
            final(self).conn_send_window() == old(self).conn_send_window(),
            final(self).pending_items() == old(self).pending_items(),
            final(self).rx_segs() == old(self).rx_segs(),
    {
        if bytes == 0 {
            return;
        }
        proof {
            self.streams.lemma_sids_match();
        }
        let found = match self.streams.get_mut(sid) {
            Some(st) => {
                st.flow.recv_win = add_i64(st.flow.recv_win, bytes as i64);
                true
            },
            None => false,
        };
        let ghost t0 = self.tx@;
        if found {
            self.queue_window_update(sid, bytes);
        }
        let ghost mid = self.tx@;
        self.recv_conn_win = add_i64(self.recv_conn_win, bytes as i64);
        self.queue_window_update(0, bytes);
        proof {
            if found {
                assert(mid.take(t0.len() as int) == t0);
                assert(self.tx@.take(mid.len() as int) == mid);
                assert(self.tx@[t0.len() as int] == mid[t0.len() as int]);
                assert(self.tx@.take(t0.len() as int) =~= t0);
            }
        }
    }

    /// Makes sure a HEADERS frame on `sid` has a stream.  Stream 0 and even
    /// ids are protocol errors, as is an id at or below the last one seen
    /// that is not tracked.  A new id when the concurrency limit is reached
    /// is refused with RST_STREAM(REFUSED_STREAM) and is no error; otherwise
    /// it opens a stream with the peer's and this side's initial windows.
    pub fn ensure_stream_for_headers(&mut self, sid: u32) -> (r: Result<(), H2Error>)
        requires
            old(self).wf(),
        ensures
            final(self).wf(),
            sid == 0 || sid % 2 == 0 ==> (r matches Err(e) && e.code == H2Code::ProtocolError) && *final(self) == *old(self),
            sid != 0 && sid % 2 == 1 && sid <= old(self).last_stream_id() ==> {
                &&& r is Ok <==> old(self).stream_map().contains_key(sid)
                &&& (r matches Err(e) ==> e.code == H2Code::ProtocolError)
                &&& *final(self) == *old(self)
            },
            sid % 2 == 1 && sid > old(self).last_stream_id() && old(self).stream_items().len() >= old(self).stream_limit() ==> {
                &&& r is Ok
                &&& queued(
                    old(self).tx_items(),
                    final(self).tx_items(),
                    control_header(4, FrameType::RstStream, 0, sid),
                    be32(code_value(H2Code::RefusedStream)),
                )
                &&& final(self).same_protocol_state(old(self))
            },
            sid % 2 == 1 && sid > old(self).last_stream_id() && old(self).stream_items().len() < old(self).stream_limit() ==> {
                &&& r is Ok <==> sid != 0xffff_ffff
                &&& final(self).last_stream_id() == sid
                &&& final(self).tx_items() == old(self).tx_items()
                &&& r is Ok ==> final(self).stream_map().contains_key(sid) && is_opened_stream(
                    final(self).stream_map()[sid],
                    sid,
                    old(self).peer_settings(),
                    old(self).local_settings(),
                ) && final(self).stream_map() == old(self).stream_map().insert(sid, final(self).stream_map()[sid])
                &&& r is Ok ==> final(self).stream_items().len() == old(self).stream_items().len() + 1
                &&& (r matches Err(e) ==> e.code == H2Code::InternalError)
            },
            final(self).conn_send_window() == old(self).conn_send_window(),
            final(self).conn_recv_window() == old(self).conn_recv_window(),
            final(self).pending_items() == old(self).pending_items(),
            final(self).rx_segs() == old(self).rx_segs(),
            final(self).peer_settings() == old(self).peer_settings(),
            final(self).local_settings() == old(self).local_settings(),
            final(self).stream_limit() == old(self).stream_limit(),
            final(self).stream_items().len() <= final(self).stream_limit(),
            final(self).conn_key() == old(self).conn_key(),
            final(self).preface_seen() == old(self).preface_seen(),
    {
        proof {
            self.streams.lemma_within_limit();
        }
        if sid == 0 {
            return Err(H2Error::new(H2Code::ProtocolError, "HEADERS on stream 0"));
        }
        if sid % 2 == 0 {
            return Err(H2Error::new(H2Code::ProtocolError, "client stream id must be odd"));
        }
        if sid <= self.last_peer_sid {
            if self.streams.get(sid).is_none() {
                return Err(H2Error::new(H2Code::ProtocolError, "HEADERS for unknown stream"));
            }
            return Ok(());
        }
        if self.streams.len() >= self.streams.cap() {
            self.queue_rst_stream(sid, H2Code::RefusedStream);
            return Ok(());
        }
        self.last_peer_sid = sid;
        let init_send = self.peer.initial_window_size;
        let init_recv = self.local.initial_window_size;
        let mut st = Stream::new(sid, init_send, init_recv);
        st.state = StreamState::Open;
        if !self.streams.insert(st) {
            return Err(H2Error::new(H2Code::InternalError, "stream insert failed"));
        }
        Ok(())
    }
}

/// The receive-buffer segments a queued item holds for buffer `id`.
pub open spec fn item_count(item: TxItem, id: u16) -> int {
    match item {
        TxItem::FrameData { payload, .. } => count_id(payload.segs(), id),
        _ => 0,
    }
}

pub open spec fn items_count(s: Seq<TxItem>, id: u16) -> int
    decreases s.len(),
{
    if s.len() == 0 {
        0
    } else {
        items_count(s.drop_last(), id) + item_count(s.last(), id)
    }
}

pub open spec fn pending_count(s: Seq<PendingData>, id: u16) -> int
    decreases s.len(),
{
    if s.len() == 0 {
        0
    } else {
        pending_count(s.drop_last(), id) + count_id(s.last().data.segs(), id)
    }
}

/// The bytes the DATA frames among `s` carry, in order.
pub open spec fn data_refs(s: Seq<TxItem>) -> Seq<(u16, int)>
    decreases s.len(),
{
    if s.len() == 0 {
        Seq::empty()
    } else {
        data_refs(s.drop_last()) + match s.last() {
            TxItem::FrameData { payload, .. } => payload.refs(),
            _ => Seq::empty(),
        }
    }
}

/// `item` is a DATA frame of stream `sid` with a payload of 1 to `maxf`
/// bytes, its header announcing that length.
pub open spec fn is_data_frame(item: TxItem, sid: u32, maxf: nat) -> bool {
    item matches TxItem::FrameData { header, payload, .. } && payload.wf() && 0 < payload.refs().len() <= maxf
        && header@ == header_bytes(
            FrameHeader { len: payload.refs().len() as u32, ty: FrameType::Data, flags: header@[4], stream_id: sid },
        )
}

pub proof fn lemma_pending_count_front(s: Seq<PendingData>, id: u16)
    requires
        s.len() > 0,
    ensures
        pending_count(s, id) == count_id(s[0].data.segs(), id) + pending_count(s.drop_first(), id),
    decreases s.len(),
{
    if s.len() > 1 {
        let t = s.drop_first();
        lemma_pending_count_front(s.drop_last(), id);
        assert(s.drop_last().drop_first() =~= t.drop_last());
        assert(t.last() == s.last());
        assert(s.drop_last()[0] == s[0]);
        assert(pending_count(t, id) == pending_count(t.drop_last(), id) + count_id(t.last().data.segs(), id));
        assert(pending_count(s, id) == pending_count(s.drop_last(), id) + count_id(s.last().data.segs(), id));
    } else {
        assert(s.drop_first().len() == 0);
        assert(s.drop_last().len() == 0);
        assert(s.last() == s[0]);
        assert(pending_count(s.drop_last(), id) == 0);
        assert(pending_count(s.drop_first(), id) == 0);
    }
}

pub proof fn lemma_items_count_append(a: Seq<TxItem>, b: Seq<TxItem>, id: u16)
    ensures
        items_count(a + b, id) == items_count(a, id) + items_count(b, id),
        data_refs(a + b) == data_refs(a) + data_refs(b),
    decreases b.len(),
{
    if b.len() == 0 {
        assert(a + b =~= a);
        assert(data_refs(a) + data_refs(b) =~= data_refs(a));
    } else {
        lemma_items_count_append(a, b.drop_last(), id);
        assert((a + b).drop_last() =~= a + b.drop_last());
        assert((a + b).last() == b.last());
        assert(data_refs(a + b) =~= data_refs(a) + data_refs(b));
    }
}

/// The credit left to pass on once `sent` bytes went out in DATA frames
/// with `rest` bytes still to go: none once the bytes it covers are sent or
/// nothing remains to send.
pub open spec fn credit_left(credit: Option<Credit>, sent: int, rest: int) -> Option<Credit> {
    if sent == 0 {
        credit
    } else {
        match credit {
            None => None,
            Some(Credit::ToDownstream { conn, sid, bytes }) => if bytes > sent && rest > 0 {
                Some(Credit::ToDownstream { conn, sid, bytes: (bytes - sent) as u32 })
            } else {
                None
            },
            Some(Credit::ToUpstream { conn, sid, bytes }) => if bytes > sent && rest > 0 {
                Some(Credit::ToUpstream { conn, sid, bytes: (bytes - sent) as u32 })
            } else {
                None
            },
        }
    }
}

/// Passing a credit through two sends is passing it through one send of
/// both amounts.
pub proof fn lemma_credit_left_compose(c: Option<Credit>, s1: int, r1: int, s2: int, r2: int)
    requires
        0 <= s1,
        0 < s2,
        0 < r1,
    ensures
        credit_left(credit_left(c, s1, r1), s2, r2) == credit_left(c, s1 + s2, r2),
{
}

/// How many bytes a credit covers (0 for none).
pub open spec fn credit_amount(c: Option<Credit>) -> int {
    match c {
        None => 0,
        Some(Credit::ToDownstream { bytes, .. }) => bytes as int,
        Some(Credit::ToUpstream { bytes, .. }) => bytes as int,
    }
}

/// The credit a queued item carries (only DATA frames carry one).
pub open spec fn item_credit(item: TxItem) -> int {
    match item {
        TxItem::FrameData { credit, .. } => credit_amount(credit),
        _ => 0,
    }
}

/// The credit carried by the items, added up.
pub open spec fn items_credit(items: Seq<TxItem>) -> int
    decreases items.len(),
{
    if items.len() == 0 {
        0
    } else {
        items_credit(items.drop_last()) + item_credit(items.last())
    }
}

/// The lesser of two amounts.
pub open spec fn min_int(a: int, b: int) -> int {
    if a <= b {
        a
    } else {
        b
    }
}

/// Splits a credit between `take` bytes sent now and the rest, which keeps
/// a credit only while `remain` bytes are still to go.
pub fn split_credit(credit: Option<Credit>, take: u32, remain: u32) -> (r: (Option<Credit>, Option<Credit>))
    ensures
        match credit {
            None => r == (None::<Credit>, None::<Credit>),
            Some(Credit::ToDownstream { conn, sid, bytes }) => {
                let a: u32 = if take <= bytes { take } else { bytes };
                let b: u32 = (bytes - a) as u32;
                &&& r.0 == if a > 0 { Some(Credit::ToDownstream { conn, sid, bytes: a }) } else { None::<Credit> }
                &&& r.1 == if b > 0 && remain > 0 { Some(Credit::ToDownstream { conn, sid, bytes: b }) } else { None::<Credit> }
            },
            Some(Credit::ToUpstream { conn, sid, bytes }) => {
                let a: u32 = if take <= bytes { take } else { bytes };
                let b: u32 = (bytes - a) as u32;
                &&& r.0 == if a > 0 { Some(Credit::ToUpstream { conn, sid, bytes: a }) } else { None::<Credit> }
                &&& r.1 == if b > 0 && remain > 0 { Some(Credit::ToUpstream { conn, sid, bytes: b }) } else { None::<Credit> }
            },
        },
{
    match credit {
        None => (None, None),
        Some(Credit::ToDownstream { conn, sid, bytes }) => {
            let a = if take <= bytes { take } else { bytes };
            let b = bytes - a;
            let c1 = if a > 0 { Some(Credit::ToDownstream { conn, sid, bytes: a }) } else { None };
            let c2 = if b > 0 && remain > 0 { Some(Credit::ToDownstream { conn, sid, bytes: b }) } else { None };
            (c1, c2)
        },
        Some(Credit::ToUpstream { conn, sid, bytes }) => {
            let a = if take <= bytes { take } else { bytes };
            let b = bytes - a;
            let c1 = if a > 0 { Some(Credit::ToUpstream { conn, sid, bytes: a }) } else { None };
            let c2 = if b > 0 && remain > 0 { Some(Credit::ToUpstream { conn, sid, bytes: b }) } else { None };
            (c1, c2)
        },
    }
}

/// Two sends on a stream in a row are one send of both amounts.
proof fn lemma_after_send_compose(m: Map<u32, Stream>, sid: u32, a: int, b: int, ended: bool)
    requires
        m.contains_key(sid),
        0 <= a,
        0 < b,
        a + b <= m[sid].flow.send_win,
    ensures
        DownstreamH2::after_send(DownstreamH2::after_send(m, sid, a, false), sid, b, ended)
            == DownstreamH2::after_send(m, sid, a + b, ended),
{
    let m1 = DownstreamH2::after_send(m, sid, a, false);
    assert(m1.contains_key(sid));
    assert(m1[sid].flow.send_win == m[sid].flow.send_win - a);
    let l = DownstreamH2::after_send(m1, sid, b, false);
    let r = DownstreamH2::after_send(m, sid, a + b, false);
    assert(l[sid] == r[sid]);
    assert(l =~= r);
}

impl DownstreamH2 {
    /// The receive-buffer segments the connection holds for buffer `id`:
    /// unread input, queued DATA frames and pending response bodies.
    pub open spec fn held(&self, id: u16) -> int {
        count_id(self.rx_segs(), id) + items_count(self.tx_items(), id) + pending_count(self.pending_items(), id)
    }

    /// The send window of stream `sid` as far as sending goes (0 when the
    /// stream is gone).
    pub open spec fn stream_send_window(&self, sid: u32) -> int {
        if self.stream_map().contains_key(sid) {
            self.stream_map()[sid].flow.send_win as int
        } else {
            0
        }
    }

    /// The stream table after `sent` bytes of stream `sid` went out, the
    /// stream being ended by this side when `ended`.
    pub open spec fn after_send(m: Map<u32, Stream>, sid: u32, sent: int, ended: bool) -> Map<u32, Stream> {
        let m1 = if m.contains_key(sid) && sent > 0 {
            m.insert(sid, Stream {
                flow: crate::h2_flow::Flow { send_win: (m[sid].flow.send_win - sent) as i64, ..m[sid].flow },
                ..m[sid]
            })
        } else {
            m
        };
        if ended {
            after_local_end(m1, sid)
        } else {
            m1
        }
    }

    /// Sends as much of `data` on stream `sid` as the stream and connection
    /// send windows allow, in DATA frames no larger than the peer's frame
    /// size; the frame that empties `data` carries END_STREAM when asked, and
    /// ends this side of the stream.  What stays in `data` waits for window.
    #[verifier::rlimit(40)]
    #[verifier::spinoff_prover]
    fn try_queue_data<O: BufOps>(&mut self, sid: u32, end_stream: bool, data: &mut BufChain, credit: Option<Credit>, ops: &mut O) -> (r: Option<Credit>)
        requires
            old(self).wf(),
            old(data).wf(),
        ensures
            final(self).wf(),
            final(data).wf(),
            ({
                let sent = old(data).refs().len() - final(data).refs().len();
                let avail = if old(self).stream_send_window(sid) <= old(self).conn_send_window() {
                    old(self).stream_send_window(sid)
                } else {
                    old(self).conn_send_window() as int
                };
                &&& 0 <= sent
                &&& sent > 0 ==> sent <= avail
                &&& 0 < avail <= 0x7fff_ffff ==> sent == (if old(data).refs().len() <= avail {
                    old(data).refs().len() as int
                } else {
                    avail
                })
                &&& final(data).refs() == old(data).refs().skip(sent)
                &&& final(self).conn_send_window() == old(self).conn_send_window() - sent
                &&& final(self).tx_items().len() >= old(self).tx_items().len()
                &&& final(self).tx_items().take(old(self).tx_items().len() as int) == old(self).tx_items()
                &&& r == credit_left(credit, sent, final(data).refs().len() as int)
                &&& items_credit(final(self).tx_items().skip(old(self).tx_items().len() as int)) == min_int(
                    sent,
                    credit_amount(credit),
                )
                &&& data_refs(final(self).tx_items().skip(old(self).tx_items().len() as int))
                    == old(data).refs().take(sent)
                &&& forall|i: int| old(self).tx_items().len() <= i < final(self).tx_items().len()
                    ==> is_data_frame(#[trigger] final(self).tx_items()[i], sid, old(self).frame_size_out() as nat)
                &&& final(self).stream_map() == Self::after_send(
                    old(self).stream_map(),
                    sid,
                    sent,
                    end_stream && old(data).refs().len() > 0 && final(data).refs().len() == 0,
                )
            }),
            forall|id: u16|
                #[trigger] final(ops).owners(id) - final(self).held(id) - count_id(final(data).segs(), id)
                    == old(ops).owners(id) - old(self).held(id) - count_id(old(data).segs(), id),
            forall|id: u16, p: int| #[trigger] final(ops).byte_at(id, p) == old(ops).byte_at(id, p),
            final(self).conn_recv_window() == old(self).conn_recv_window(),
            final(self).pending_items() == old(self).pending_items(),
            final(self).rx_segs() == old(self).rx_segs(),
            final(self).peer_settings() == old(self).peer_settings(),
            final(self).local_settings() == old(self).local_settings(),
            final(self).frame_size_out() == old(self).frame_size_out(),
            final(self).frame_size_in() == old(self).frame_size_in(),
            final(self).last_stream_id() == old(self).last_stream_id(),
            final(self).stream_limit() == old(self).stream_limit(),
            final(self).continuation_of() == old(self).continuation_of(),
            final(self).preface_seen() == old(self).preface_seen(),
            final(self).awaiting_settings() == old(self).awaiting_settings(),
            final(self).conn_key() == old(self).conn_key(),
    {
        let ghost t0 = self.tx@;
        let ghost d0 = data.refs();
        let ghost m0 = self.streams.by_sid();
        let ghost avail0: int = if old(self).stream_send_window(sid) <= old(self).conn_send_window() {
            old(self).stream_send_window(sid)
        } else {
            old(self).conn_send_window() as int
        };
        let ghost c0 = credit;
        let mut credit = credit;
        proof {
            self.streams.lemma_sids_match();
            assert(t0.skip(t0.len() as int) =~= Seq::<TxItem>::empty());
            assert(d0.take(0) =~= Seq::<(u16, int)>::empty());
            assert(d0.skip(0) =~= d0);
        }
        loop
            invariant_except_break
                self.wf(),
                data.wf(),
                m0 == old(self).stream_map(),
                avail0 == (if old(self).stream_send_window(sid) <= old(self).conn_send_window() {
                    old(self).stream_send_window(sid)
                } else {
                    old(self).conn_send_window() as int
                }),
                t0.len() <= self.tx@.len(),
                self.tx@.take(t0.len() as int) == t0,
                data_refs(self.tx@.skip(t0.len() as int)) == d0.take(d0.len() - data.refs().len()),
                data.refs() == d0.skip(d0.len() - data.refs().len()),
                data.refs().len() <= d0.len(),
                forall|i: int| t0.len() <= i < self.tx@.len() ==> is_data_frame(#[trigger] self.tx@[i], sid, old(self).frame_size_out() as nat),
                self.send_conn_win == old(self).conn_send_window() - (d0.len() - data.refs().len()),
                d0.len() - data.refs().len() > 0 ==> d0.len() - data.refs().len() <= avail0,
                credit == credit_left(c0, d0.len() - data.refs().len(), data.refs().len() as int),
                items_credit(self.tx@.skip(t0.len() as int)) == min_int(d0.len() - data.refs().len(), credit_amount(c0)),
                data.refs().len() > 0 || d0.len() == 0 || !end_stream ==> self.streams.by_sid() == Self::after_send(m0, sid, d0.len() - data.refs().len(), false),
                data.refs().len() == 0 && d0.len() > 0 && end_stream ==> self.streams.by_sid() == Self::after_send(m0, sid, d0.len() - data.refs().len(), true),
                forall|id: u16|
                    #[trigger] ops.owners(id) - self.held(id) - count_id(data.segs(), id)
                        == old(ops).owners(id) - old(self).held(id) - count_id(old(data).segs(), id),
                forall|id: u16, p: int| #[trigger] ops.byte_at(id, p) == old(ops).byte_at(id, p),
                self.same_except_sending(old(self)),
            ensures
                self.wf(),
                data.wf(),
                t0.len() <= self.tx@.len(),
                self.tx@.take(t0.len() as int) == t0,
                data_refs(self.tx@.skip(t0.len() as int)) == d0.take(d0.len() - data.refs().len()),
                data.refs() == d0.skip(d0.len() - data.refs().len()),
                data.refs().len() <= d0.len(),
                forall|i: int| t0.len() <= i < self.tx@.len() ==> is_data_frame(#[trigger] self.tx@[i], sid, old(self).frame_size_out() as nat),
                self.send_conn_win == old(self).conn_send_window() - (d0.len() - data.refs().len()),
                d0.len() - data.refs().len() > 0 ==> d0.len() - data.refs().len() <= avail0,
                0 < avail0 <= 0x7fff_ffff ==> (data.refs().len() == 0 || d0.len() - data.refs().len() == avail0),
                credit == credit_left(c0, d0.len() - data.refs().len(), data.refs().len() as int),
                items_credit(self.tx@.skip(t0.len() as int)) == min_int(d0.len() - data.refs().len(), credit_amount(c0)),
                self.streams.by_sid() == Self::after_send(m0, sid, d0.len() - data.refs().len(),
                    end_stream && d0.len() > 0 && data.refs().len() == 0),
                forall|id: u16|
                    #[trigger] ops.owners(id) - self.held(id) - count_id(data.segs(), id)
                        == old(ops).owners(id) - old(self).held(id) - count_id(old(data).segs(), id),
                forall|id: u16, p: int| #[trigger] ops.byte_at(id, p) == old(ops).byte_at(id, p),
                self.same_except_sending(old(self)),
            decreases data.refs().len(),
        {
            if data.is_empty() {
                break;
            }
            proof {
                self.streams.lemma_sids_match();
            }
            let st_send: i64 = match self.streams.get(sid) {
                Some(st) => st.flow.send_win,
                None => 0,
            };
            let conn_send = self.send_conn_win;
            let avail = if st_send <= conn_send { st_send } else { conn_send };
            proof {
                let sent_old: int = d0.len() - data.refs().len();
                let cur_map = self.streams.by_sid();
                if m0.contains_key(sid) {
                    assert(cur_map.contains_key(sid));
                    if sent_old > 0 {
                        assert(cur_map[sid].flow.send_win == m0[sid].flow.send_win - sent_old);
                    } else {
                        assert(cur_map == m0);
                    }
                    assert(avail == avail0 - sent_old);
                }
            }
            if avail <= 0 {
                break;
            }
            let maxf: u32 = if self.max_frame_size_out < 16_777_215 { self.max_frame_size_out } else { 16_777_215 };
            let avail32: u32 = #[verifier::truncate] (avail as u32);
            let total = data.total_len();
            let mut want: u32 = if avail32 <= maxf { avail32 } else { maxf };
            if total < want {
                want = total;
            }
            if want == 0 {
                break;
            }
            let remain_after = total - want;
            let ghost sent_old: int = d0.len() - data.refs().len();
            let ghost cur_map = self.streams.by_sid();
            let ghost before_tx = self.tx@;
            let ghost before_data = data.refs();
            proof {
                assert(cur_map.contains_key(sid));
                assert(m0.contains_key(sid));
                assert(avail0 <= m0[sid].flow.send_win);
                if sent_old > 0 {
                    assert(cur_map[sid].flow.send_win == m0[sid].flow.send_win - sent_old);
                } else {
                    assert(cur_map == m0);
                }
                assert(avail == avail0 - sent_old);
            }
            credit = self.send_data_piece(sid, end_stream, data, credit, want, remain_after, ops);
            proof {
                let sent_new: int = sent_old + want;
                lemma_after_send_compose(m0, sid, sent_old, want as int, end_stream && data.refs().len() == 0);
                lemma_credit_left_compose(c0, sent_old, before_data.len() as int, want as int, remain_after as int);
                assert(data.refs() =~= d0.skip(sent_new));
                assert(self.tx@.take(t0.len() as int) =~= t0);
                let item = self.tx@.last();
                assert(self.tx@.skip(t0.len() as int) =~= before_tx.skip(t0.len() as int).push(item));
                let suf = before_tx.skip(t0.len() as int).push(item);
                assert(suf =~= before_tx.skip(t0.len() as int) + seq![item]);
                lemma_items_count_append(before_tx.skip(t0.len() as int), seq![item], 0);
                assert(suf.drop_last() =~= before_tx.skip(t0.len() as int));
                assert(d0.take(sent_new) =~= d0.take(sent_old) + before_data.take(want as int));
                assert forall|i: int| t0.len() <= i < self.tx@.len() implies is_data_frame(#[trigger] self.tx@[i], sid, old(self).frame_size_out() as nat) by {
                    if i < before_tx.len() {
                        assert(self.tx@[i] == before_tx[i]);
                    }
                }
            }
        }
        credit
    }

    /// Sends the first `want` bytes of `data` as one DATA frame of stream
    /// `sid`, charging both send windows; the frame that empties `data`
    /// carries END_STREAM when asked and ends this side of the stream.
    /// Returns the part of `credit` left for what remains.
    fn send_data_piece<O: BufOps>(
        &mut self,
        sid: u32,
        end_stream: bool,
        data: &mut BufChain,
        credit: Option<Credit>,
        want: u32,
        remain_after: u32,
        ops: &mut O,
    ) -> (rest: Option<Credit>)
        requires
            old(self).wf(),
            old(data).wf(),
            0 < want <= old(data).refs().len(),
            want <= old(self).frame_size_out(),
            old(self).stream_map().contains_key(sid),
            want <= old(self).stream_map()[sid].flow.send_win,
            want <= old(self).conn_send_window(),
        ensures
            final(self).wf(),
            final(data).wf(),
            final(data).refs() == old(data).refs().skip(want as int),
            final(self).conn_send_window() == old(self).conn_send_window() - want,
            final(self).tx_items().len() == old(self).tx_items().len() + 1,
            final(self).tx_items().drop_last() == old(self).tx_items(),
            is_data_frame(final(self).tx_items().last(), sid, old(self).frame_size_out() as nat),
            data_refs(seq![final(self).tx_items().last()]) == old(data).refs().take(want as int),
            rest == credit_left(credit, want as int, remain_after as int),
            item_credit(final(self).tx_items().last()) == min_int(want as int, credit_amount(credit)),
            final(self).stream_map() == Self::after_send(
                old(self).stream_map(),
                sid,
                want as int,
                end_stream && final(data).refs().len() == 0,
            ),
            forall|id: u16|
                #[trigger] final(ops).owners(id) - final(self).held(id) - count_id(final(data).segs(), id)
                    == old(ops).owners(id) - old(self).held(id) - count_id(old(data).segs(), id),
            forall|id: u16, p: int| #[trigger] final(ops).byte_at(id, p) == old(ops).byte_at(id, p),
            final(self).same_except_sending(old(self)),
    {
        proof {
            self.streams.lemma_sids_match();
        }
        let ghost m0 = self.streams.by_sid();
        let ghost t0 = self.tx@;
        let piece = data.take_prefix(want, ops);
        let is_last = data.is_empty() && end_stream;
        self.send_conn_win = self.send_conn_win - want as i64;
        match self.streams.get_mut(sid) {
            Some(st) => {
                st.flow.dec_send(want);
            },
            None => {},
        }
        proof {
            let upd = Stream {
                flow: crate::h2_flow::Flow { send_win: (m0[sid].flow.send_win - want) as i64, ..m0[sid].flow },
                ..m0[sid]
            };
            assert(self.streams.by_sid() == m0.insert(sid, upd));
            assert(self.streams.by_sid() =~= Self::after_send(m0, sid, want as int, false));
        }
        let (c1, c2) = split_credit(credit, want, remain_after);
        let fl: u8 = if is_last { FLAG_END_STREAM } else { 0 };
        let mut hdr = [0u8; 9];
        let fh = FrameHeader { len: want, ty: FrameType::Data, flags: fl, stream_id: sid };
        fh.write_into(&mut hdr);
        let ghost item = TxItem::FrameData { header: hdr, payload: piece, credit: c1 };
        self.tx.push_back(TxItem::FrameData { header: hdr, payload: piece, credit: c1 });
        proof {
            assert(self.tx@ == t0.push(item));
            assert(self.tx@.drop_last() =~= t0);
            assert(is_data_frame(item, sid, old(self).frame_size_out() as nat));
            assert(item_credit(item) == min_int(want as int, credit_amount(credit)));
            assert(seq![item].drop_last() =~= Seq::<TxItem>::empty());
            assert(data_refs(Seq::<TxItem>::empty()) == Seq::<(u16, int)>::empty());
            assert(seq![item].last() == item);
            assert(data_refs(seq![item]) == data_refs(Seq::<TxItem>::empty()) + piece.refs());
            assert(data_refs(seq![item]) =~= piece.refs());
            assert forall|id: u16| #[trigger] items_count(self.tx@, id) == items_count(t0, id) + count_id(piece.segs(), id) by {
                assert(self.tx@.drop_last() == t0);
            }
        }
        if is_last {
            self.on_local_end_stream(sid);
        }
        c2
    }

    /// Everything but what sending changes is the same in `self` and `other`.
    pub open spec fn same_except_sending(&self, other: &Self) -> bool {
        &&& self.conn_recv_window() == other.conn_recv_window()
        &&& self.pending_items() == other.pending_items()
        &&& self.rx_segs() == other.rx_segs()
        &&& self.peer_settings() == other.peer_settings()
        &&& self.local_settings() == other.local_settings()
        &&& self.frame_size_out() == other.frame_size_out()
        &&& self.frame_size_in() == other.frame_size_in()
        &&& self.last_stream_id() == other.last_stream_id()
        &&& self.stream_limit() == other.stream_limit()
        &&& self.continuation_of() == other.continuation_of()
        &&& self.preface_seen() == other.preface_seen()
        &&& self.awaiting_settings() == other.awaiting_settings()
        &&& self.conn_key() == other.conn_key()
    }
}

impl DownstreamH2 {
    /// Sends response body bytes on stream `sid`: as much as the send
    /// windows allow now, the rest queued to wait for window.  Body bytes of
    /// a stream that is gone are given back to the pool. The credit handed
    /// in is shared out, none lost: the DATA frames carry the part for their
    /// bytes and the waiting rest keeps the remainder (once the whole body
    /// has gone out, credit beyond its length is dropped).
    pub fn send_response_data<O: BufOps>(&mut self, sid: u32, end_stream: bool, data: BufChain, credit: Option<Credit>, ops: &mut O) -> (r: Result<(), H2Error>)
        requires
            old(self).wf(),
            data.wf(),
        ensures
            r is Ok,
            final(self).wf(),
            forall|id: u16|
                #[trigger] final(ops).owners(id) - final(self).held(id) == old(ops).owners(id) - old(
                    self,
                ).held(id) - count_id(data.segs(), id),
            !old(self).stream_map().contains_key(sid) ==> final(self).tx_items() == old(self).tx_items()
                && final(self).pending_items() == old(self).pending_items()
                && final(self).stream_map() == old(self).stream_map(),
            final(self).conn_send_window() <= old(self).conn_send_window(),
            final(self).tx_items().take(old(self).tx_items().len() as int) == old(self).tx_items(),
            final(self).pending_items().take(old(self).pending_items().len() as int) == old(self).pending_items(),
            final(self).pending_items().len() <= old(self).pending_items().len() + 1,
            final(self).rx_segs() == old(self).rx_segs(),
            final(self).conn_recv_window() == old(self).conn_recv_window(),
            final(self).last_stream_id() == old(self).last_stream_id(),
            final(self).stream_limit() == old(self).stream_limit(),
            old(self).stream_map().contains_key(sid) && final(self).pending_items().len() > old(self).pending_items().len() ==> ({
                let p = final(self).pending_items().last();
                let sent = data.refs().len() - p.data.refs().len();
                &&& p.sid == sid
                &&& p.end_stream == end_stream
                &&& p.data.refs() == data.refs().skip(sent)
                &&& p.data.refs().len() > 0
                &&& p.credit == credit_left(credit, sent, p.data.refs().len() as int)
            }),
            old(self).stream_map().contains_key(sid) ==> items_credit(
                final(self).tx_items().skip(old(self).tx_items().len() as int),
            ) + (if final(self).pending_items().len() > old(self).pending_items().len() {
                credit_amount(final(self).pending_items().last().credit)
            } else {
                0
            }) == if final(self).pending_items().len() > old(self).pending_items().len() {
                credit_amount(credit)
            } else {
                min_int(data.refs().len() as int, credit_amount(credit))
            },
    {
        let mut data = data;
        if self.streams.get(sid).is_none() {
            data.release(ops);
            return Ok(());
        }
        let ghost p0 = self.pending@;
        let rem = self.try_queue_data(sid, end_stream, &mut data, credit, ops);
        if !data.is_empty() {
            let ghost held_before = self.held(0);
            self.pending.push_back(PendingData { sid, end_stream, data, credit: rem });
            proof {
                assert(self.pending@.drop_last() == p0);
                assert(self.pending@.take(p0.len() as int) =~= p0);
                assert forall|id: u16| #[trigger] pending_count(self.pending@, id) == pending_count(p0, id) + count_id(self.pending@.last().data.segs(), id) by {
                    assert(self.pending@.drop_last() == p0);
                }
            }
        } else {
            proof {
                data.lemma_empty_holds_nothing();
                assert(self.pending@.take(p0.len() as int) =~= p0);
            }
        }
        Ok(())
    }

    /// The oldest waiting body can go out at once: it holds bytes, and its
    /// stream's and the connection's send windows both have room (the
    /// smaller one below 2^31).
    pub open spec fn first_pending_sendable(&self) -> bool {
        self.pending_items().len() > 0 && ({
            let p = self.pending_items()[0];
            let avail = if self.stream_send_window(p.sid) <= self.conn_send_window() {
                self.stream_send_window(p.sid)
            } else {
                self.conn_send_window() as int
            };
            p.data.refs().len() > 0 && 0 < avail <= 0x7fff_ffff
        })
    }

    /// After the peer opened send window: sends pending response bodies,
    /// oldest first, until one still has to wait (it goes to the back) or
    /// 1024 have been sent whole.
    fn flush_pending<O: BufOps>(&mut self, ops: &mut O) -> (r: Result<(), H2Error>)
        requires
            old(self).wf(),
        ensures
            r is Ok,
            final(self).wf(),
            forall|id: u16|
                #[trigger] final(ops).owners(id) - final(self).held(id) == old(ops).owners(id) - old(self).held(id),
            forall|id: u16, p: int| #[trigger] final(ops).byte_at(id, p) == old(ops).byte_at(id, p),
            final(self).conn_send_window() <= old(self).conn_send_window(),
            final(self).tx_items().len() >= old(self).tx_items().len(),
            final(self).tx_items().take(old(self).tx_items().len() as int) == old(self).tx_items(),
            old(self).pending_items().len() == 0 ==> *final(self) == *old(self),
            final(self).pending_items().len() <= old(self).pending_items().len(),
            old(self).first_pending_sendable() ==> final(self).tx_items().len() > old(self).tx_items().len(),
            final(self).same_except_sending_and_pending(old(self)),
    {
        if self.pending.len() == 0 {
            return Ok(());
        }
        let mut rounds: usize = 0;
        let ghost t0 = self.tx@;
        let ghost mut first_done = false;
        proof {
            assert(t0.take(t0.len() as int) =~= t0);
        }
        while rounds < 1024
            invariant_except_break
                self.wf(),
                old(self).pending@.len() > 0,
                rounds > 0 ==> first_done,
                t0.len() <= self.tx@.len(),
                self.tx@.take(t0.len() as int) == t0,
                !first_done ==> *self == *old(self),
                first_done && old(self).first_pending_sendable() ==> self.tx@.len() > t0.len(),
                self.pending@.len() <= old(self).pending@.len(),
                self.send_conn_win <= old(self).conn_send_window(),
                forall|id: u16|
                    #[trigger] ops.owners(id) - self.held(id) == old(ops).owners(id) - old(self).held(id),
                forall|id: u16, p: int| #[trigger] ops.byte_at(id, p) == old(ops).byte_at(id, p),
                self.same_except_sending_and_pending(old(self)),
            ensures
                first_done,
                self.wf(),
                t0.len() <= self.tx@.len(),
                self.tx@.take(t0.len() as int) == t0,
                !first_done ==> *self == *old(self),
                first_done && old(self).first_pending_sendable() ==> self.tx@.len() > t0.len(),
                self.pending@.len() <= old(self).pending@.len(),
                self.send_conn_win <= old(self).conn_send_window(),
                forall|id: u16|
                    #[trigger] ops.owners(id) - self.held(id) == old(ops).owners(id) - old(self).held(id),
                forall|id: u16, p: int| #[trigger] ops.byte_at(id, p) == old(ops).byte_at(id, p),
                self.same_except_sending_and_pending(old(self)),
            decreases 1024 - rounds,
        {
            let ghost pend = self.pending@;
            let ghost tx_before = self.tx@;
            let p = match self.pending.pop_front() {
                Some(p) => p,
                None => {
                    break;
                },
            };
            proof {
                lemma_pending_count_front(pend, 0);
                assert forall|id: u16| #[trigger] pending_count(pend, id) == count_id(p.data.segs(), id) + pending_count(self.pending@, id) by {
                    lemma_pending_count_front(pend, id);
                    assert(pend.drop_first() == self.pending@);
                }
                assert(p.data.wf()) by {
                    assert(pend[0] == p);
                }
            }
            let PendingData { sid, end_stream, data, credit } = p;
            let mut data = data;
            let ghost was_first = !first_done;
            let ghost p0 = old(self).pending_items();
            let ghost pre = *self;
            let ghost d0 = data;
            let rem = self.try_queue_data(sid, end_stream, &mut data, credit, ops);
            proof {
                assert(self.tx@.take(t0.len() as int) =~= t0) by {
                    assert(self.tx@.take(tx_before.len() as int) == tx_before);
                    assert(self.tx@.take(t0.len() as int) =~= tx_before.take(t0.len() as int));
                }
            }
            proof {
                if was_first && old(self).first_pending_sendable() {
                    let suffix = self.tx@.skip(tx_before.len() as int);
                    assert(pend == p0);
                    assert(p0[0] == p);
                    assert(pre.stream_send_window(sid) == old(self).stream_send_window(sid));
                    assert(pre.conn_send_window() == old(self).conn_send_window());
                    assert(d0.refs().len() > 0);
                    let sent = d0.refs().len() - data.refs().len();
                    assert(sent > 0);
                    assert(data_refs(suffix).len() == sent);
                    if suffix.len() == 0 {
                        assert(data_refs(suffix) =~= Seq::<(u16, int)>::empty());
                    }
                }
                first_done = true;
            }
            if !data.is_empty() {
                let ghost pb = self.pending@;
                self.pending.push_back(PendingData { sid, end_stream, data, credit: rem });
                proof {
                    assert forall|id: u16| #[trigger] pending_count(self.pending@, id) == pending_count(pb, id) + count_id(self.pending@.last().data.segs(), id) by {
                        assert(self.pending@.drop_last() == pb);
                    }
                }
                break;
            } else {
                proof {
                    data.lemma_empty_holds_nothing();
                }
            }
            rounds = rounds + 1;
        }
        Ok(())
    }

    /// Everything but what sending changes, and the pending bodies, is the
    /// same in `self` and `other`.
    pub open spec fn same_except_sending_and_pending(&self, other: &Self) -> bool {
        &&& self.conn_recv_window() == other.conn_recv_window()
        &&& self.rx_segs() == other.rx_segs()
        &&& self.peer_settings() == other.peer_settings()
        &&& self.local_settings() == other.local_settings()
        &&& self.frame_size_out() == other.frame_size_out()
        &&& self.frame_size_in() == other.frame_size_in()
        &&& self.last_stream_id() == other.last_stream_id()
        &&& self.stream_limit() == other.stream_limit()
        &&& self.continuation_of() == other.continuation_of()
        &&& self.preface_seen() == other.preface_seen()
        &&& self.awaiting_settings() == other.awaiting_settings()
        &&& self.conn_key() == other.conn_key()
    }
}

pub proof fn lemma_items_count_nonneg(s: Seq<TxItem>, id: u16)
    ensures
        items_count(s, id) >= 0,
    decreases s.len(),
{
    if s.len() > 0 {
        lemma_items_count_nonneg(s.drop_last(), id);
        match s.last() {
            TxItem::FrameData { payload, .. } => lemma_count_nonneg(payload.segs(), id),
            _ => {},
        }
    }
}

pub proof fn lemma_pending_count_nonneg(s: Seq<PendingData>, id: u16)
    ensures
        pending_count(s, id) >= 0,
    decreases s.len(),
{
    if s.len() > 0 {
        lemma_pending_count_nonneg(s.drop_last(), id);
        lemma_count_nonneg(s.last().data.segs(), id);
    }
}

/// The big-endian value of four bytes.
pub fn be32_at(b: &Vec<u8>, off: usize) -> (r: u32)
    requires
        off + 4 <= b.len(),
    ensures
        r == b@[off as int] * 0x100_0000 + b@[off + 1] * 0x1_0000 + b@[off + 2] * 0x100 + b@[off + 3],
{
    (b[off] as u32) * 0x100_0000 + (b[off + 1] as u32) * 0x1_0000 + (b[off + 2] as u32) * 0x100 + (b[off + 3] as u32)
}

/// The first `n` bytes waiting in `segs`, read through `ops`.
pub open spec fn rx_prefix<O: BufOps>(ops: O, segs: Seq<BufSeg>, n: int) -> Seq<u8> {
    crate::h2_buf::bytes_of(ops, crate::h2_buf::refs_of(segs).take(n))
}

/// The value of four big-endian bytes.
pub open spec fn be32_value(b: Seq<u8>) -> u32 {
    (b[0] * 0x100_0000 + b[1] * 0x1_0000 + b[2] * 0x100 + b[3]) as u32
}

/// The 31-bit value of four big-endian bytes, the reserved top bit dropped.
pub open spec fn u31_of(b: Seq<u8>) -> u32 {
    ((b[0] * 0x100_0000 + b[1] * 0x1_0000 + b[2] * 0x100 + b[3]) as u32) & 0x7fff_ffff
}

/// How reading one frame ended: it was not whole yet, handling it
/// stopped reading (an error), or it was read.
pub enum FrameRead {
    Incomplete,
    Stopped,
    Read,
}

/// The bytes `m` references after the first `k` of `segs_b` were consumed
/// are the same through `ops_a` as they were through `ops_b`: consuming
/// keeps the bytes of every buffer still owned.
pub proof fn lemma_prefix_kept<O: BufOps>(ops_b: O, ops_a: O, segs_b: Seq<BufSeg>, segs_a: Seq<BufSeg>, k: int, m: int)
    requires
        0 <= k,
        0 <= m,
        k + m <= crate::h2_buf::refs_of(segs_b).len(),
        crate::h2_buf::refs_of(segs_a) == crate::h2_buf::refs_of(segs_b).skip(k),
        covered(ops_a, segs_a),
        forall|id: u16, p: int| ops_a.owners(id) > 0 ==> #[trigger] ops_a.byte_at(id, p) == ops_b.byte_at(id, p),
    ensures
        forall|mm: int| 0 <= mm <= m ==> #[trigger] rx_prefix(ops_a, segs_a, mm) =~= rx_prefix(ops_b, segs_b, k + mm).subrange(k, k + mm),
        forall|mm: int| 0 <= mm <= m ==> #[trigger] rx_prefix(ops_a, segs_a, mm) =~= rx_prefix(ops_b, segs_b, k + m).subrange(k, k + mm),
{
    let ra = crate::h2_buf::refs_of(segs_a);
    let rb = crate::h2_buf::refs_of(segs_b);
    assert forall|j: int| 0 <= j < m implies #[trigger] ops_a.byte_at(ra[j].0, ra[j].1) == ops_b.byte_at(rb[k + j].0, rb[k + j].1) by {
        assert(ra[j] == rb[k + j]);
        crate::h2_buf::lemma_refs_in_segs(segs_a, j);
        assert(ops_a.owners(ra[j].0) >= count_id(segs_a, ra[j].0));
    }
}

/// One frame read: `before`'s first waiting frame (read through
/// `ops_before`) was whole and admitted and has been handled.  When reading
/// goes on, exactly its bytes have left the input and what the sink was
/// handed is that of its type: the payload chain of DATA (padding removed,
/// the same buffers), the request of a completed header block, the reset or
/// GOAWAY the peer sent, nothing otherwise.  When handling stopped reading,
/// at most one connection error was handed on.
pub open spec fn down_frame_step<O: BufOps>(
    before: DownstreamH2,
    after: DownstreamH2,
    ops_before: O,
    ev_before: Seq<DownEvent>,
    ev_after: Seq<DownEvent>,
    go_on: bool,
) -> bool {
    let r = crate::h2_buf::refs_of(before.rx_segs());
    let h = rx_prefix(ops_before, before.rx_segs(), 9);
    let n = parsed_len(h);
    let bytes = rx_prefix(ops_before, before.rx_segs(), 9 + n);
    let ty = frame_type_of_byte(h[3]);
    let fl = h[4];
    let sid = parsed_stream_id(h) as u32;
    let key = before.conn_key();
    &&& down_events_extend(ev_before, ev_after)
    &&& go_on ==> crate::h2_buf::refs_of(after.rx_segs()) == r.skip(9 + n)
    &&& go_on && ty == FrameType::Data ==> down_data_event(
        ev_before,
        ev_after,
        key,
        sid,
        fl & FLAG_END_STREAM != 0,
        if fl & FLAG_PADDED == 0 {
            r.subrange(9, 9 + n)
        } else {
            r.subrange(10, 9 + n - bytes[9])
        },
    )
    &&& go_on && (ty == FrameType::Headers || ty == FrameType::Continuation) && fl & FLAG_END_HEADERS != 0
        ==> down_headers_event(ev_before, ev_after, key, sid, ty == FrameType::Headers && fl & FLAG_END_STREAM != 0)
    &&& go_on && (ty == FrameType::Headers || ty == FrameType::Continuation) && fl & FLAG_END_HEADERS == 0
        ==> ev_after == ev_before && after.continuation_of() == Some(sid)
    &&& go_on && ty == FrameType::RstStream ==> ev_after == ev_before.push(
        DownEvent::Reset { down: key, sid, code: code_of_value(be32_value(bytes.subrange(9, 13))) },
    ) && after.stream_map() == before.stream_map().remove(sid)
    &&& go_on && ty == FrameType::Goaway ==> ev_after == ev_before.push(
        DownEvent::Goaway {
            down: key,
            last_sid: u31_of(bytes.subrange(9, 13)),
            code: code_of_value(be32_value(bytes.subrange(13, 17))),
        },
    )
    &&& go_on && ty == FrameType::Settings && fl & FLAG_ACK == 0 ==> after.peer_settings()
        == crate::h2_settings::apply_records(before.peer_settings(), bytes.subrange(9, 9 + n)).0
    &&& go_on && ty == FrameType::Ping && fl & FLAG_ACK == 0 ==> after.tx_items().len() > before.tx_items().len()
        && is_frame(after.tx_items()[before.tx_items().len() as int], control_header(8, FrameType::Ping, FLAG_ACK, 0), bytes.subrange(9, 17))
    &&& go_on && ty == FrameType::WindowUpdate ==> u31_of(bytes.subrange(9, 13)) != 0
    &&& go_on && !(ty == FrameType::Data || ty == FrameType::Headers || ty == FrameType::Continuation
        || ty == FrameType::RstStream || ty == FrameType::Goaway) ==> ev_after == ev_before
    &&& !go_on ==> ev_after == ev_before || down_some_error(ev_before, ev_after, key)
}

/// What reading one frame did (`r` says how it ended): a frame not whole yet
/// leaves everything as it was; a bad header, a frame other than the
/// awaited CONTINUATION and a first frame other than SETTINGS are
/// connection errors; an admitted frame is one `down_frame_step`.
pub open spec fn down_frame_read<O: BufOps>(
    before: DownstreamH2,
    after: DownstreamH2,
    ops_before: O,
    ev_before: Seq<DownEvent>,
    ev_after: Seq<DownEvent>,
    r: FrameRead,
) -> bool {
    let rl = crate::h2_buf::refs_of(before.rx_segs()).len();
    let h = rx_prefix(ops_before, before.rx_segs(), 9);
    let n = parsed_len(h);
    let ty = frame_type_of_byte(h[3]);
    let fits = n <= effective_max_frame(before.frame_size_in());
    &&& (r is Incomplete <==> rl < 9 || (fits && rl < 9 + n))
    &&& r is Incomplete ==> after == before && ev_after == ev_before
    &&& rl >= 9 && !fits ==> r is Stopped && down_failed(before, after, ev_before, ev_after, H2Code::FrameSizeError)
    &&& rl >= 9 && fits && rl >= 9 + n && before.continuation_of() is Some && (ty != FrameType::Continuation
        || parsed_stream_id(h) != before.continuation_of()->0)
        ==> r is Stopped && down_failed(before, after, ev_before, ev_after, H2Code::ProtocolError)
    &&& rl >= 9 && fits && rl >= 9 + n && before.continuation_of() is None && before.awaiting_settings()
        && ty != FrameType::Settings ==> r is Stopped && down_failed(before, after, ev_before, ev_after, H2Code::ProtocolError)
    &&& before.first_frame_admitted(ops_before) ==> down_frame_step(before, after, ops_before, ev_before, ev_after, r is Read)
}

/// Frame after frame was read: each entry is the connection, the pool and
/// what the sink had been handed when a frame was read, and each next entry
/// is what reading it left.
pub open spec fn down_frames_read<O: BufOps>(tr: Seq<(DownstreamH2, O, Seq<DownEvent>)>) -> bool {
    forall|k: int| 0 <= k < tr.len() - 1 ==> #[trigger] down_frame_read(
        tr[k].0,
        tr[k + 1].0,
        tr[k].1,
        tr[k].2,
        tr[k + 1].2,
        FrameRead::Read,
    )
}

/// A run of `pump` after the preface: the frames of `tr` were read in turn,
/// at most 128, and reading ended at the last entry either because 128
/// frames were read or with the frame read there not being whole or
/// stopping reading, leaving `after` and the events `ev_after`.
pub open spec fn down_pump_trace<O: BufOps>(after: DownstreamH2, ev_after: Seq<DownEvent>, tr: Seq<(DownstreamH2, O, Seq<DownEvent>)>) -> bool {
    &&& 1 <= tr.len() <= 129
    &&& down_frames_read(tr)
    &&& {
        ||| tr.len() == 129 && after == tr.last().0 && ev_after == tr.last().2
        ||| down_frame_read(tr.last().0, after, tr.last().1, tr.last().2, ev_after, FrameRead::Incomplete)
        ||| down_frame_read(tr.last().0, after, tr.last().1, tr.last().2, ev_after, FrameRead::Stopped)
    }
}

/// Queuing a frame with a copied payload holds no buffer.
pub proof fn lemma_queued_count(old: Seq<TxItem>, new: Seq<TxItem>)
    requires
        new.len() == old.len() + 1,
        new.take(old.len() as int) == old,
        new.last() is FrameBytes,
    ensures
        forall|id: u16| #[trigger] items_count(new, id) == items_count(old, id),
{
    assert(new.drop_last() =~= old);
}

impl DownstreamH2 {
    /// What every step of reading keeps: well-formed state, every buffer
    /// reference it holds still owned (ownership only leaves to the sink or
    /// back to the pool), stream ids that only grow, and this side's
    /// settings.
    pub open spec fn kept_from<O: BufOps>(&self, before: &Self, ops_now: O, ops_before: O) -> bool {
        &&& self.wf()
        &&& forall|id: u16| #[trigger] ops_now.owners(id) - self.held(id) >= ops_before.owners(id) - before.held(id)
        &&& self.last_stream_id() >= before.last_stream_id()
        &&& self.stream_limit() == before.stream_limit()
        &&& self.local_settings() == before.local_settings()
        &&& self.conn_key() == before.conn_key()
    }

    /// The pool owns every buffer reference the connection holds.
    pub open spec fn owned_by<O: BufOps>(&self, ops: O) -> bool {
        forall|id: u16| #[trigger] ops.owners(id) >= self.held(id)
    }

    proof fn lemma_rx_covered<O: BufOps>(&self, ops: O)
        requires
            self.owned_by(ops),
        ensures
            covered(ops, self.rx_segs()),
    {
        assert forall|id: u16| #[trigger] ops.owners(id) >= count_id(self.rx_segs(), id) by {
            lemma_items_count_nonneg(self.tx_items(), id);
            lemma_pending_count_nonneg(self.pending_items(), id);
            assert(ops.owners(id) >= self.held(id));
        }
    }

    /// `self` is `before` with a GOAWAY carrying `code` queued: the way a
    /// connection error ends reading.
    pub open spec fn goaway_after(&self, before: &Self, code: H2Code) -> bool {
        queued(
            before.tx_items(),
            self.tx_items(),
            control_header(8, FrameType::Goaway, 0, 0),
            be32((before.last_stream_id() as int % 0x8000_0000) as u32) + be32(code_value(code)),
        )
    }

    /// Queues GOAWAY with the error's code and reports the error.
    fn fail<S: DownstreamSink>(&mut self, e: H2Error, sink: &mut S)
        requires
            old(self).wf(),
        ensures
            final(self).wf(),
            final(self).same_protocol_state(old(self)),
            final(self).goaway_after(old(self), e.code),
            down_events_extend(old(sink).events(), final(sink).events()),
            final(sink).events() == old(sink).events().push(DownEvent::ConnError { down: old(self).conn_key(), err: e }),
            forall|id: u16| #[trigger] final(self).held(id) == old(self).held(id),
    {
        self.queue_goaway(self.last_peer_sid, e.code);
        sink.on_conn_error(self.key, e);
        proof {
            lemma_queued_count(old(self).tx_items(), self.tx_items());
        }
    }

    /// SETTINGS from the peer: an ACK must be empty; otherwise the records
    /// are applied to the peer settings, the frame sizes follow, the change
    /// of initial window shifts every stream's send window, and an ACK is
    /// queued.
    fn on_settings_frame<O: BufOps, S: DownstreamSink>(&mut self, fh: FrameHeader, ops: &mut O, sink: &mut S) -> (stop: bool)
        requires
            old(self).wf(),
            old(self).owned_by(*old(ops)),
            fh.ty == FrameType::Settings,
        ensures
            final(self).kept_from(old(self), *final(ops), *old(ops)),
            final(self).preface_seen() == old(self).preface_seen(),
            !stop && crate::h2_buf::refs_of(old(self).rx_segs()).len() >= fh.len
                ==> crate::h2_buf::refs_of(final(self).rx_segs()) == crate::h2_buf::refs_of(old(self).rx_segs()).skip(fh.len as int),
            down_events_extend(old(sink).events(), final(sink).events()),
            !stop ==> final(sink).events() == old(sink).events(),
            stop ==> down_some_error(old(sink).events(), final(sink).events(), old(self).conn_key()),
            fh.stream_id != 0 ==> stop && down_failed(*old(self), *final(self), old(sink).events(), final(sink).events(), H2Code::ProtocolError),
            fh.stream_id == 0 && fh.flags & FLAG_ACK != 0 ==> {
                &&& stop <==> fh.len != 0
                &&& stop ==> down_failed(*old(self), *final(self), old(sink).events(), final(sink).events(), H2Code::FrameSizeError)
                &&& !stop ==> *final(self) == *old(self)
            },
            fh.stream_id == 0 && fh.flags & FLAG_ACK == 0 && crate::h2_buf::refs_of(old(self).rx_segs()).len() >= fh.len ==> ({
                let payload = rx_prefix(*old(ops), old(self).rx_segs(), fh.len as int);
                let applied = crate::h2_settings::apply_records(old(self).peer_settings(), payload);
                &&& payload.len() % 6 != 0 ==> stop && down_failed(*old(self), *final(self), old(sink).events(), final(sink).events(), H2Code::FrameSizeError)
                &&& payload.len() % 6 == 0 && applied.1 is Some ==> stop && down_failed(*old(self), *final(self), old(sink).events(), final(sink).events(), applied.1->0)
                &&& payload.len() % 6 == 0 && applied.1 is None ==> {
                    &&& final(self).peer_settings() == applied.0
                    &&& final(self).frame_size_out() == applied.0.max_frame_size
                    &&& stop ==> down_failed(*old(self), *final(self), old(sink).events(), final(sink).events(), H2Code::FlowControlError)
                    &&& !stop ==> queued(
                        old(self).tx_items(),
                        final(self).tx_items(),
                        control_header(0, FrameType::Settings, FLAG_ACK, 0),
                        Seq::empty(),
                    )
                }
            }),
    {
        let ghost s0 = *self;
        if fh.stream_id != 0 {
            self.fail(H2Error::new(H2Code::ProtocolError, "SETTINGS on stream != 0"), sink);
            return true;
        }
        if fh.flags & FLAG_ACK != 0 {
            if fh.len != 0 {
                self.fail(H2Error::new(H2Code::FrameSizeError, "SETTINGS ack with non-zero len"), sink);
                return true;
            }
            return false;
        }
        proof {
            self.lemma_rx_covered(*ops);
        }
        self.header_scratch.clear();
        let _ = self.rx.copy_into_vec(fh.len, ops, &mut self.header_scratch);
        proof {
            if crate::h2_buf::refs_of(old(self).rx_segs()).len() >= fh.len {
                assert(self.header_scratch@ =~= rx_prefix(*old(ops), old(self).rx_segs(), fh.len as int));
            }
        }
        let res = self.peer.apply_from_payload(self.header_scratch.as_slice());
        proof {
            lemma_apply_keeps_valid(s0.peer, self.header_scratch@);
        }
        match res {
            Err(e) => {
                self.fail(e, sink);
                return true;
            },
            Ok(delta) => {
                self.max_frame_size_in = self.peer.max_frame_size;
                self.max_frame_size_out = self.peer.max_frame_size;
                let d = delta.initial_window_delta();
                if d != 0 {
                    let overflow = self.streams.shift_send_windows(d);
                    if overflow {
                        self.fail(H2Error::new(H2Code::FlowControlError, "send window overflow"), sink);
                        return true;
                    }
                }
                self.queue_settings_ack();
                false
            },
        }
    }

    /// PING: must be eight bytes on stream 0; one without ACK is answered
    /// with the same bytes.
    fn on_ping_frame<O: BufOps, S: DownstreamSink>(&mut self, fh: FrameHeader, ops: &mut O, sink: &mut S) -> (stop: bool)
        requires
            old(self).wf(),
            old(self).owned_by(*old(ops)),
            crate::h2_buf::refs_of(old(self).rx_segs()).len() >= fh.len,
        ensures
            final(self).kept_from(old(self), *final(ops), *old(ops)),
            final(self).preface_seen() == old(self).preface_seen(),
            !stop && crate::h2_buf::refs_of(old(self).rx_segs()).len() >= fh.len
                ==> crate::h2_buf::refs_of(final(self).rx_segs()) == crate::h2_buf::refs_of(old(self).rx_segs()).skip(fh.len as int),
            down_events_extend(old(sink).events(), final(sink).events()),
            !stop ==> final(sink).events() == old(sink).events(),
            stop == (fh.stream_id != 0 || fh.len != 8),
            stop ==> down_failed(*old(self), *final(self), old(sink).events(), final(sink).events(), H2Code::ProtocolError),
            !stop ==> crate::h2_buf::refs_of(final(self).rx_segs()) == crate::h2_buf::refs_of(old(self).rx_segs()).skip(8),
            !stop && fh.flags & FLAG_ACK == 0 ==> queued(
                old(self).tx_items(),
                final(self).tx_items(),
                control_header(8, FrameType::Ping, FLAG_ACK, 0),
                rx_prefix(*old(ops), old(self).rx_segs(), 8),
            ),
            !stop && fh.flags & FLAG_ACK != 0 ==> final(self).tx_items() == old(self).tx_items(),
    {
        if fh.stream_id != 0 || fh.len != 8 {
            self.fail(H2Error::new(H2Code::ProtocolError, "bad PING"), sink);
            return true;
        }
        proof {
            self.lemma_rx_covered(*ops);
        }
        self.header_scratch.clear();
        let _ = self.rx.copy_into_vec(8, ops, &mut self.header_scratch);
        let p8 = slice_vec(&self.header_scratch, 0, 8);
        proof {
            assert(p8@ =~= rx_prefix(*old(ops), old(self).rx_segs(), 8));
        }
        if fh.flags & FLAG_ACK == 0 {
            self.queue_ping_ack(p8);
        }
        false
    }
}

impl DownstreamH2 {
    /// WINDOW_UPDATE: four bytes with a non-zero increment, added to the
    /// connection's (stream 0) or the stream's send window, which may not
    /// pass 2^31 - 1; waiting response bodies are then sent.  An update for
    /// an unknown stream is ignored.
    fn on_window_update_frame<O: BufOps, S: DownstreamSink>(&mut self, fh: FrameHeader, ops: &mut O, sink: &mut S) -> (stop: bool)
        requires
            old(self).wf(),
            old(self).owned_by(*old(ops)),
            crate::h2_buf::refs_of(old(self).rx_segs()).len() >= fh.len,
        ensures
            final(self).kept_from(old(self), *final(ops), *old(ops)),
            final(self).preface_seen() == old(self).preface_seen(),
            !stop && crate::h2_buf::refs_of(old(self).rx_segs()).len() >= fh.len
                ==> crate::h2_buf::refs_of(final(self).rx_segs()) == crate::h2_buf::refs_of(old(self).rx_segs()).skip(fh.len as int),
            down_events_extend(old(sink).events(), final(sink).events()),
            !stop ==> final(sink).events() == old(sink).events(),
            stop ==> down_some_error(old(sink).events(), final(sink).events(), old(self).conn_key()),
            fh.len != 4 ==> stop && down_failed(*old(self), *final(self), old(sink).events(), final(sink).events(), H2Code::FrameSizeError),
            fh.len == 4 ==> ({
                let inc = u31_of(rx_prefix(*old(ops), old(self).rx_segs(), 4));
                &&& inc == 0 ==> stop && down_failed(*old(self), *final(self), old(sink).events(), final(sink).events(), H2Code::ProtocolError)
                &&& inc != 0 && fh.stream_id == 0 ==> (stop <==> old(self).conn_send_window() + inc > 0x7fff_ffff)
                &&& inc != 0 && fh.stream_id != 0 ==> (stop <==> old(self).stream_map().contains_key(fh.stream_id)
                    && old(self).stream_send_window(fh.stream_id) + inc > 0x7fff_ffff)
                &&& inc != 0 && stop ==> down_failed(*old(self), *final(self), old(sink).events(), final(sink).events(), H2Code::FlowControlError)
                &&& inc != 0 && fh.stream_id != 0 && !old(self).stream_map().contains_key(fh.stream_id)
                    ==> final(self).tx_items() == old(self).tx_items()
            }),
            !stop ==> final(self).tx_items().take(old(self).tx_items().len() as int) == old(self).tx_items(),
    {
        if fh.len != 4 {
            self.fail(H2Error::new(H2Code::FrameSizeError, "WINDOW_UPDATE len != 4"), sink);
            return true;
        }
        proof {
            self.lemma_rx_covered(*ops);
        }
        self.header_scratch.clear();
        let _ = self.rx.copy_into_vec(4, ops, &mut self.header_scratch);
        let v = be32_at(&self.header_scratch, 0) & 0x7fff_ffff;
        if v == 0 {
            self.fail(H2Error::new(H2Code::ProtocolError, "WINDOW_UPDATE increment 0"), sink);
            return true;
        }
        if fh.stream_id == 0 {
            self.send_conn_win = add_i64(self.send_conn_win, v as i64);
            if self.send_conn_win > 0x7fff_ffff {
                self.fail(H2Error::new(H2Code::FlowControlError, "conn send window overflow"), sink);
                return true;
            }
            let _ = self.flush_pending(ops);
        } else {
            proof {
                self.streams.lemma_sids_match();
            }
            let over = match self.streams.get_mut(fh.stream_id) {
                Some(st) => {
                    st.flow.send_win = add_i64(st.flow.send_win, v as i64);
                    Some(st.flow.send_win > 0x7fff_ffff)
                },
                None => None,
            };
            match over {
                Some(true) => {
                    self.fail(H2Error::new(H2Code::FlowControlError, "stream send window overflow"), sink);
                    return true;
                },
                Some(false) => {
                    let _ = self.flush_pending(ops);
                },
                None => {},
            }
        }
        false
    }

    /// RST_STREAM: four bytes on a stream other than 0; the stream is
    /// dropped and the reset reported.
    fn on_rst_stream_frame<O: BufOps, S: DownstreamSink>(&mut self, fh: FrameHeader, ops: &mut O, sink: &mut S) -> (stop: bool)
        requires
            old(self).wf(),
            old(self).owned_by(*old(ops)),
            crate::h2_buf::refs_of(old(self).rx_segs()).len() >= fh.len,
        ensures
            final(self).kept_from(old(self), *final(ops), *old(ops)),
            final(self).preface_seen() == old(self).preface_seen(),
            !stop && crate::h2_buf::refs_of(old(self).rx_segs()).len() >= fh.len
                ==> crate::h2_buf::refs_of(final(self).rx_segs()) == crate::h2_buf::refs_of(old(self).rx_segs()).skip(fh.len as int),
            down_events_extend(old(sink).events(), final(sink).events()),
            !stop ==> final(sink).events() == old(sink).events().push(DownEvent::Reset {
                down: old(self).conn_key(),
                sid: fh.stream_id,
                code: code_of_value(be32_value(rx_prefix(*old(ops), old(self).rx_segs(), 4))),
            }),
            stop == (fh.stream_id == 0 || fh.len != 4),
            stop ==> down_failed(*old(self), *final(self), old(sink).events(), final(sink).events(), H2Code::ProtocolError),
            !stop ==> final(self).stream_map() == old(self).stream_map().remove(fh.stream_id),
            !stop ==> final(self).tx_items() == old(self).tx_items(),
    {
        if fh.stream_id == 0 || fh.len != 4 {
            self.fail(H2Error::new(H2Code::ProtocolError, "bad RST_STREAM"), sink);
            return true;
        }
        proof {
            self.lemma_rx_covered(*ops);
        }
        self.header_scratch.clear();
        let _ = self.rx.copy_into_vec(4, ops, &mut self.header_scratch);
        let code = H2Code::from_u32(be32_at(&self.header_scratch, 0));
        let _ = self.streams.remove(fh.stream_id);
        sink.on_rst_stream(self.key, fh.stream_id, code);
        false
    }

    /// GOAWAY: at least eight bytes on stream 0; the last stream id and the
    /// code are reported.
    fn on_goaway_frame<O: BufOps, S: DownstreamSink>(&mut self, fh: FrameHeader, ops: &mut O, sink: &mut S) -> (stop: bool)
        requires
            old(self).wf(),
            old(self).owned_by(*old(ops)),
            crate::h2_buf::refs_of(old(self).rx_segs()).len() >= fh.len,
        ensures
            final(self).kept_from(old(self), *final(ops), *old(ops)),
            final(self).preface_seen() == old(self).preface_seen(),
            !stop && crate::h2_buf::refs_of(old(self).rx_segs()).len() >= fh.len
                ==> crate::h2_buf::refs_of(final(self).rx_segs()) == crate::h2_buf::refs_of(old(self).rx_segs()).skip(fh.len as int),
            down_events_extend(old(sink).events(), final(sink).events()),
            !stop ==> final(sink).events() == old(sink).events().push(DownEvent::Goaway {
                down: old(self).conn_key(),
                last_sid: u31_of(rx_prefix(*old(ops), old(self).rx_segs(), 4)),
                code: code_of_value(be32_value(rx_prefix(*old(ops), old(self).rx_segs(), fh.len as int).subrange(4, 8))),
            }),
            stop == (fh.stream_id != 0 || fh.len < 8),
            stop ==> down_failed(*old(self), *final(self), old(sink).events(), final(sink).events(), H2Code::ProtocolError),
            !stop ==> final(self).tx_items() == old(self).tx_items(),
            !stop ==> final(self).stream_map() == old(self).stream_map(),
            !stop ==> crate::h2_buf::refs_of(final(self).rx_segs()) == crate::h2_buf::refs_of(old(self).rx_segs()).skip(fh.len as int),
    {
        if fh.stream_id != 0 || fh.len < 8 {
            self.fail(H2Error::new(H2Code::ProtocolError, "bad GOAWAY"), sink);
            return true;
        }
        proof {
            self.lemma_rx_covered(*ops);
        }
        self.header_scratch.clear();
        let _ = self.rx.copy_into_vec(fh.len, ops, &mut self.header_scratch);
        let last = be32_at(&self.header_scratch, 0) & 0x7fff_ffff;
        let code = H2Code::from_u32(be32_at(&self.header_scratch, 4));
        sink.on_goaway(self.key, last, code);
        false
    }
}

impl DownstreamH2 {
    /// Decodes the complete header block in the scratch buffer and reports
    /// the request of stream `sid`; a block that does not decode is a
    /// connection error, a request the rules refuse resets the stream.
    fn finish_header_block<S: DownstreamSink>(&mut self, sid: u32, end_stream: bool, sink: &mut S) -> (stop: bool)
        requires
            old(self).wf(),
        ensures
            final(self).wf(),
            forall|id: u16| #[trigger] final(self).held(id) == old(self).held(id),
            final(self).last_stream_id() == old(self).last_stream_id(),
            final(self).stream_limit() == old(self).stream_limit(),
            final(self).local_settings() == old(self).local_settings(),
            final(self).conn_key() == old(self).conn_key(),
            final(self).continuation_of() == old(self).continuation_of(),
            final(self).preface_seen() == old(self).preface_seen(),
            down_events_extend(old(sink).events(), final(sink).events()),
            !stop ==> down_headers_event(old(sink).events(), final(sink).events(), old(self).conn_key(), sid, end_stream),
            stop ==> down_some_error(old(sink).events(), final(sink).events(), old(self).conn_key()),
            final(self).rx_segs() == old(self).rx_segs(),
            final(self).tx_items().take(old(self).tx_items().len() as int) == old(self).tx_items(),
            stop ==> final(self).tx_items().len() == old(self).tx_items().len() + 1
                && final(self).stream_map() == old(self).stream_map(),
            !stop ==> final(self).tx_items() == old(self).tx_items(),
            !stop ==> final(self).stream_map() == (if end_stream {
                after_remote_end(old(self).stream_map(), sid)
            } else {
                old(self).stream_map()
            }),
    {
        let decoded = match self.hdec.decode(self.header_scratch.as_slice()) {
            Ok(h) => h,
            Err(e) => {
                self.fail(e, sink);
                return true;
            },
        };
        let ghost hs = header_pairs(decoded@);
        let head = match validate_and_build_request(decoded) {
            Ok(h) => h,
            Err(e) => {
                self.queue_rst_stream(sid, e.code);
                sink.on_conn_error(self.key, e);
                return true;
            },
        };
        proof {
            assert(head_matches(head, hs));
        }
        if end_stream {
            self.on_remote_end_stream(sid);
        }
        sink.on_request_headers(self.key, sid, end_stream, head);
        false
    }

    /// HEADERS: opens (or finds) the stream, strips padding and priority,
    /// and either waits for CONTINUATION frames or decodes the block.
    fn on_headers_frame<O: BufOps, S: DownstreamSink>(&mut self, fh: FrameHeader, ops: &mut O, sink: &mut S) -> (stop: bool)
        requires
            old(self).wf(),
            old(self).owned_by(*old(ops)),
        ensures
            final(self).kept_from(old(self), *final(ops), *old(ops)),
            final(self).preface_seen() == old(self).preface_seen(),
            !stop && crate::h2_buf::refs_of(old(self).rx_segs()).len() >= fh.len
                ==> crate::h2_buf::refs_of(final(self).rx_segs()) == crate::h2_buf::refs_of(old(self).rx_segs()).skip(fh.len as int),
            down_events_extend(old(sink).events(), final(sink).events()),
            stop ==> final(sink).events() == old(sink).events()
                || down_some_error(old(sink).events(), final(sink).events(), old(self).conn_key()),
            !stop && fh.flags & FLAG_END_HEADERS == 0 ==> final(sink).events() == old(sink).events(),
            !stop && fh.flags & FLAG_END_HEADERS != 0 ==> down_headers_event(
                old(sink).events(),
                final(sink).events(),
                old(self).conn_key(),
                fh.stream_id,
                fh.flags & FLAG_END_STREAM != 0,
            ),
            fh.stream_id == 0 || fh.stream_id % 2 == 0 ==> stop && down_failed(*old(self), *final(self), old(sink).events(), final(sink).events(), H2Code::ProtocolError),
            fh.stream_id % 2 == 1 && fh.stream_id <= old(self).last_stream_id() && !old(self).stream_map().contains_key(fh.stream_id)
                ==> stop && down_failed(*old(self), *final(self), old(sink).events(), final(sink).events(), H2Code::ProtocolError),
            !stop && fh.flags & FLAG_END_HEADERS == 0 ==> final(self).continuation_of() == Some(fh.stream_id),
    {
        let sid = fh.stream_id;
        match self.ensure_stream_for_headers(sid) {
            Ok(()) => {},
            Err(e) => {
                self.fail(e, sink);
                return true;
            },
        }
        let mut pad_len: u8 = 0;
        if fh.flags & FLAG_PADDED != 0 {
            pad_len = match self.rx.read_u8(ops) {
                Ok(x) => x,
                Err(_) => {
                    return true;
                },
            };
        }
        if fh.flags & FLAG_PRIORITY != 0 {
            let _ = self.rx.consume(5, ops);
        }
        let mut frag_len: i64 = fh.len as i64;
        if fh.flags & FLAG_PADDED != 0 {
            frag_len = frag_len - 1;
        }
        if fh.flags & FLAG_PRIORITY != 0 {
            frag_len = frag_len - 5;
        }
        frag_len = frag_len - pad_len as i64;
        if frag_len < 0 {
            self.fail(H2Error::new(H2Code::ProtocolError, "bad HEADERS length"), sink);
            return true;
        }
        proof {
            self.lemma_rx_covered(*ops);
        }
        self.header_scratch.clear();
        match self.rx.copy_into_vec(frag_len as u32, ops, &mut self.header_scratch) {
            Ok(()) => {},
            Err(()) => {
                return true;
            },
        }
        if pad_len > 0 {
            let _ = self.rx.consume(pad_len as u32, ops);
        }
        if fh.flags & FLAG_END_HEADERS == 0 {
            self.cont = Some(sid);
            false
        } else {
            self.finish_header_block(sid, fh.flags & FLAG_END_STREAM != 0, sink)
        }
    }

    /// CONTINUATION: must follow HEADERS of the same stream; the last one
    /// completes the block.
    fn on_continuation_frame<O: BufOps, S: DownstreamSink>(&mut self, fh: FrameHeader, ops: &mut O, sink: &mut S) -> (stop: bool)
        requires
            old(self).wf(),
            old(self).owned_by(*old(ops)),
        ensures
            final(self).kept_from(old(self), *final(ops), *old(ops)),
            final(self).preface_seen() == old(self).preface_seen(),
            !stop && crate::h2_buf::refs_of(old(self).rx_segs()).len() >= fh.len
                ==> crate::h2_buf::refs_of(final(self).rx_segs()) == crate::h2_buf::refs_of(old(self).rx_segs()).skip(fh.len as int),
            down_events_extend(old(sink).events(), final(sink).events()),
            stop ==> final(sink).events() == old(sink).events()
                || down_some_error(old(sink).events(), final(sink).events(), old(self).conn_key()),
            !stop && fh.flags & FLAG_END_HEADERS == 0 ==> final(sink).events() == old(sink).events(),
            !stop && fh.flags & FLAG_END_HEADERS != 0 ==> down_headers_event(
                old(sink).events(),
                final(sink).events(),
                old(self).conn_key(),
                fh.stream_id,
                false,
            ),
            old(self).continuation_of() != Some(fh.stream_id) ==> stop && down_failed(*old(self), *final(self), old(sink).events(), final(sink).events(), H2Code::ProtocolError),
            old(self).continuation_of() == Some(fh.stream_id) && fh.flags & FLAG_END_HEADERS == 0 ==> {
                &&& stop <==> crate::h2_buf::refs_of(old(self).rx_segs()).len() < fh.len
                &&& final(self).continuation_of() == old(self).continuation_of()
                &&& final(self).tx_items() == old(self).tx_items()
            },
            old(self).continuation_of() == Some(fh.stream_id) && fh.flags & FLAG_END_HEADERS != 0
                && crate::h2_buf::refs_of(old(self).rx_segs()).len() >= fh.len ==> final(self).continuation_of() is None,
    {
        let sid = fh.stream_id;
        if self.cont != Some(sid) {
            self.fail(H2Error::new(H2Code::ProtocolError, "unexpected CONTINUATION"), sink);
            return true;
        }
        proof {
            self.lemma_rx_covered(*ops);
        }
        match self.rx.copy_into_vec(fh.len, ops, &mut self.header_scratch) {
            Ok(()) => {},
            Err(()) => {
                return true;
            },
        }
        if fh.flags & FLAG_END_HEADERS != 0 {
            self.cont = None;
            return self.finish_header_block(sid, false, sink);
        }
        false
    }

    /// DATA: on a known stream other than 0; the payload (padding removed)
    /// is handed on without copying after both receive windows are charged.
    /// An exhausted connection window is a connection error, an exhausted
    /// stream window resets the stream and gives the payload back.
    fn on_data_frame<O: BufOps, S: DownstreamSink>(&mut self, fh: FrameHeader, ops: &mut O, sink: &mut S) -> (stop: bool)
        requires
            old(self).wf(),
            old(self).owned_by(*old(ops)),
        ensures
            final(self).kept_from(old(self), *final(ops), *old(ops)),
            final(self).preface_seen() == old(self).preface_seen(),
            !stop && crate::h2_buf::refs_of(old(self).rx_segs()).len() >= fh.len
                ==> crate::h2_buf::refs_of(final(self).rx_segs()) == crate::h2_buf::refs_of(old(self).rx_segs()).skip(fh.len as int),
            down_events_extend(old(sink).events(), final(sink).events()),
            stop ==> final(sink).events() == old(sink).events()
                || down_some_error(old(sink).events(), final(sink).events(), old(self).conn_key()),
            !stop && fh.flags & FLAG_PADDED != 0 ==> rx_prefix(*old(ops), old(self).rx_segs(), 1)[0] + 1 <= fh.len,
            !stop ==> down_data_event(
                old(sink).events(),
                final(sink).events(),
                old(self).conn_key(),
                fh.stream_id,
                fh.flags & FLAG_END_STREAM != 0,
                if fh.flags & FLAG_PADDED == 0 {
                    crate::h2_buf::refs_of(old(self).rx_segs()).take(fh.len as int)
                } else {
                    crate::h2_buf::refs_of(old(self).rx_segs()).subrange(
                        1,
                        fh.len - rx_prefix(*old(ops), old(self).rx_segs(), 1)[0],
                    )
                },
            ),
            fh.stream_id == 0 ==> stop && down_failed(*old(self), *final(self), old(sink).events(), final(sink).events(), H2Code::ProtocolError),
            fh.stream_id != 0 && !old(self).stream_map().contains_key(fh.stream_id)
                ==> stop && down_failed(*old(self), *final(self), old(sink).events(), final(sink).events(), H2Code::ProtocolError),
            fh.stream_id != 0 && old(self).stream_map().contains_key(fh.stream_id) && fh.flags & FLAG_PADDED == 0
                && crate::h2_buf::refs_of(old(self).rx_segs()).len() >= fh.len ==> {
                &&& final(self).conn_recv_window() == sat_i64(old(self).conn_recv_window() - fh.len)
                &&& crate::h2_buf::refs_of(final(self).rx_segs()) == crate::h2_buf::refs_of(old(self).rx_segs()).skip(fh.len as int)
                &&& old(self).conn_recv_window() - fh.len < 0 ==> stop && down_failed(*old(self), *final(self), old(sink).events(), final(sink).events(), H2Code::FlowControlError)
                &&& old(self).conn_recv_window() - fh.len >= 0 ==> (stop <==> old(self).stream_map()[fh.stream_id].flow.recv_win - fh.len < 0)
            },
    {
        let sid = fh.stream_id;
        if sid == 0 {
            self.fail(H2Error::new(H2Code::ProtocolError, "DATA on stream 0"), sink);
            return true;
        }
        if self.streams.get(sid).is_none() {
            self.fail(H2Error::new(H2Code::ProtocolError, "DATA on idle/unknown stream"), sink);
            return true;
        }
        let end_stream = fh.flags & FLAG_END_STREAM != 0;
        let padded = fh.flags & FLAG_PADDED != 0;
        let mut pad_len: u32 = 0;
        if padded {
            pad_len = match self.rx.read_u8(ops) {
                Ok(x) => x as u32,
                Err(_) => {
                    return true;
                },
            };
            proof {
                assert(pad_len == rx_prefix(*old(ops), old(self).rx_segs(), 1)[0]);
            }
            if pad_len + 1 > fh.len {
                self.fail(H2Error::new(H2Code::ProtocolError, "bad DATA padding"), sink);
                return true;
            }
        }
        let data_len: u32 = if padded { fh.len - 1 - pad_len } else { fh.len };
        let ghost r_at = self.rx.refs();
        let mut data = match self.rx.take_chain(data_len, ops) {
            Ok(c) => c,
            Err(_) => {
                return true;
            },
        };
        proof {
            assert forall|id: u16| #[trigger] count_id(data.segs(), id) >= 0 by {
                lemma_count_nonneg(data.segs(), id);
            }
            let r0 = crate::h2_buf::refs_of(old(self).rx_segs());
            if padded {
                assert(r_at =~= r0.skip(1));
                assert(data.refs() =~= r0.subrange(1, fh.len - rx_prefix(*old(ops), old(self).rx_segs(), 1)[0]));
            } else {
                assert(data.refs() =~= r0.take(fh.len as int));
            }
        }
        if padded && pad_len > 0 {
            let _ = self.rx.consume(pad_len, ops);
        }
        self.recv_conn_win = add_i64(self.recv_conn_win, -(data_len as i64));
        if self.recv_conn_win < 0 {
            self.fail(H2Error::new(H2Code::FlowControlError, "conn recv window negative"), sink);
            return true;
        }
        proof {
            self.streams.lemma_sids_match();
        }
        let refused = match self.streams.get_mut(sid) {
            Some(st) => {
                st.flow.recv_win = add_i64(st.flow.recv_win, -(data_len as i64));
                if st.flow.recv_win < 0 {
                    true
                } else {
                    if data_len == 0 {
                        st.empty_data_strikes = st.empty_data_strikes.saturating_add(1);
                    }
                    false
                }
            },
            None => false,
        };
        if refused {
            self.queue_rst_stream(sid, H2Code::FlowControlError);
            data.release(ops);
            return true;
        }
        if end_stream {
            self.on_remote_end_stream(sid);
        }
        sink.on_request_data(self.key, sid, end_stream, data);
        false
    }
}

impl DownstreamH2 {
    /// The first frame waiting in the input (read through `ops`) is whole
    /// and admitted: its header parses, and neither a header block waiting
    /// for CONTINUATION nor a missing first SETTINGS refuses it.
    pub open spec fn first_frame_admitted<O: BufOps>(&self, ops: O) -> bool {
        let h = rx_prefix(ops, self.rx_segs(), 9);
        let ty = frame_type_of_byte(h[3]);
        &&& crate::h2_buf::refs_of(self.rx_segs()).len() >= 9
        &&& parsed_len(h) <= effective_max_frame(self.frame_size_in())
        &&& crate::h2_buf::refs_of(self.rx_segs()).len() >= 9 + parsed_len(h)
        &&& self.continuation_of() is Some ==> ty == FrameType::Continuation && parsed_stream_id(h) == self.continuation_of()->0
        &&& self.continuation_of() is None && self.awaiting_settings() ==> ty == FrameType::Settings
    }

    /// Reads the first waiting frame, the client preface already seen: a
    /// frame that is not whole yet is left waiting; a header that does not
    /// parse, a frame other than the awaited CONTINUATION, or a first frame
    /// other than SETTINGS is a connection error; otherwise the frame is
    /// handled by its type (unknown types are skipped).
    #[verifier::spinoff_prover]
    pub fn read_frame<O: BufOps, S: DownstreamSink>(&mut self, ops: &mut O, sink: &mut S) -> (r: FrameRead)
        requires
            old(self).wf(),
            old(self).owned_by(*old(ops)),
            old(self).preface_seen() >= 24,
        ensures
            final(self).kept_from(old(self), *final(ops), *old(ops)),
            final(self).owned_by(*final(ops)),
            final(self).preface_seen() == old(self).preface_seen(),
            down_events_extend(old(sink).events(), final(sink).events()),
            down_frame_read(*old(self), *final(self), *old(ops), old(sink).events(), final(sink).events(), r),
    {
        let mut hdr = [0u8; 9];
        if !self.rx.peek_exact(FRAME_HEADER_LEN, &*ops, &mut hdr) {
            return FrameRead::Incomplete;
        }
        proof {
            assert(hdr@ =~= rx_prefix(*old(ops), old(self).rx_segs(), 9));
        }
        let fh = match FrameHeader::parse(&hdr, self.max_frame_size_in) {
            Ok(x) => x,
            Err(e) => {
                self.fail(e, sink);
                return FrameRead::Stopped;
            },
        };
        if (self.rx.available() as u64) < 9 + fh.len as u64 {
            return FrameRead::Incomplete;
        }
        proof {
            self.lemma_rx_covered(*ops);
        }
        let _ = self.rx.consume(9, ops);
        proof {
            assert forall|id: u16| #[trigger] ops.owners(id) >= self.held(id) by {
                assert(old(ops).owners(id) >= old(self).held(id));
            }
            self.lemma_rx_covered(*ops);
            lemma_prefix_kept(*old(ops), *ops, old(self).rx_segs(), self.rx_segs(), 9, fh.len as int);
        }
        match self.cont {
            Some(c) => {
                let is_cont = match fh.ty {
                    FrameType::Continuation => true,
                    _ => false,
                };
                if !is_cont || fh.stream_id != c {
                    self.fail(H2Error::new(H2Code::ProtocolError, "expected CONTINUATION"), sink);
                    return FrameRead::Stopped;
                }
            },
            None => {},
        }
        if self.need_first_settings {
            match fh.ty {
                FrameType::Settings => {},
                _ => {
                    self.fail(H2Error::new(H2Code::ProtocolError, "first frame must be SETTINGS"), sink);
                    return FrameRead::Stopped;
                },
            }
            self.need_first_settings = false;
        }
        let ghost mid = *self;
        let ghost ops_mid = *ops;
        let stop = match fh.ty {
            FrameType::Settings => self.on_settings_frame(fh, ops, sink),
            FrameType::Ping => self.on_ping_frame(fh, ops, sink),
            FrameType::WindowUpdate => self.on_window_update_frame(fh, ops, sink),
            FrameType::RstStream => self.on_rst_stream_frame(fh, ops, sink),
            FrameType::Goaway => self.on_goaway_frame(fh, ops, sink),
            FrameType::Headers => self.on_headers_frame(fh, ops, sink),
            FrameType::Continuation => self.on_continuation_frame(fh, ops, sink),
            FrameType::Data => self.on_data_frame(fh, ops, sink),
            FrameType::PushPromise => {
                self.fail(H2Error::new(H2Code::ProtocolError, "PUSH_PROMISE from client"), sink);
                true
            },
            _ => {
                let _ = self.rx.consume(fh.len, ops);
                false
            },
        };
        proof {
            let r0 = crate::h2_buf::refs_of(old(self).rx_segs());
            let n = fh.len as int;
            assert(crate::h2_buf::refs_of(mid.rx_segs()).skip(n) =~= r0.skip(9 + n));
            assert(crate::h2_buf::refs_of(mid.rx_segs()).take(n) =~= r0.subrange(9, 9 + n));
            if n >= 1 && rx_prefix(ops_mid, mid.rx_segs(), 1)[0] + 1 <= n {
                assert(rx_prefix(ops_mid, mid.rx_segs(), 1)[0] == rx_prefix(*old(ops), old(self).rx_segs(), 9 + n)[9]);
                assert(crate::h2_buf::refs_of(mid.rx_segs()).subrange(1, n - rx_prefix(ops_mid, mid.rx_segs(), 1)[0])
                    =~= r0.subrange(10, 9 + n - rx_prefix(*old(ops), old(self).rx_segs(), 9 + n)[9]));
            }
            if n >= 4 {
                assert(rx_prefix(ops_mid, mid.rx_segs(), 4) =~= rx_prefix(*old(ops), old(self).rx_segs(), 9 + n).subrange(9, 13));
            }
            if n >= 8 {
                assert(rx_prefix(ops_mid, mid.rx_segs(), n).subrange(4, 8)
                    =~= rx_prefix(*old(ops), old(self).rx_segs(), 9 + n).subrange(13, 17));
            }
            assert(rx_prefix(ops_mid, mid.rx_segs(), n) =~= rx_prefix(*old(ops), old(self).rx_segs(), 9 + n).subrange(9, 9 + n));
            if n == 8 {
                assert(rx_prefix(ops_mid, mid.rx_segs(), 8) =~= rx_prefix(*old(ops), old(self).rx_segs(), 9 + n).subrange(9, 17));
            }
        }
        if stop {
            FrameRead::Stopped
        } else {
            FrameRead::Read
        }
    }

    /// Reads what has arrived: the client preface first, then up to 128
    /// frames, each handled by type.  Reading stops at an incomplete frame,
    /// and after an error, which is reported to the sink (a connection error
    /// with GOAWAY queued).  The first frame must be SETTINGS, and a header
    /// block waiting for CONTINUATION admits nothing else.
    #[verifier::spinoff_prover]
    pub fn pump<O: BufOps, S: DownstreamSink>(&mut self, now_ns: u64, ops: &mut O, sink: &mut S)
        requires
            old(self).wf(),
            old(self).owned_by(*old(ops)),
        ensures
            final(self).kept_from(old(self), *final(ops), *old(ops)),
            final(self).owned_by(*final(ops)),
            old(self).preface_seen() < 24 && crate::h2_buf::refs_of(old(self).rx_segs()).len() < 24 - old(self).preface_seen()
                ==> *final(self) == *old(self),
            old(self).preface_seen() < 24 && crate::h2_buf::refs_of(old(self).rx_segs()).len() >= 24 - old(self).preface_seen()
                && rx_prefix(*old(ops), old(self).rx_segs(), 24 - old(self).preface_seen())
                != preface_bytes().subrange(old(self).preface_seen() as int, 24)
                ==> down_failed(*old(self), *final(self), old(sink).events(), final(sink).events(), H2Code::ProtocolError),
            old(self).preface_seen() < 24 && crate::h2_buf::refs_of(old(self).rx_segs()).len() >= 24 - old(self).preface_seen()
                && rx_prefix(*old(ops), old(self).rx_segs(), 24 - old(self).preface_seen())
                == preface_bytes().subrange(old(self).preface_seen() as int, 24)
                ==> final(self).preface_seen() == 24,
            old(self).preface_seen() >= 24 ==> exists|tr: Seq<(DownstreamH2, O, Seq<DownEvent>)>|
                #[trigger] down_pump_trace(*final(self), final(sink).events(), tr) && tr[0] == (
                    *old(self),
                    *old(ops),
                    old(sink).events(),
                ),
            old(self).preface_seen() < 24 && crate::h2_buf::refs_of(old(self).rx_segs()).len() >= 24 - old(self).preface_seen()
                && rx_prefix(*old(ops), old(self).rx_segs(), 24 - old(self).preface_seen())
                == preface_bytes().subrange(old(self).preface_seen() as int, 24)
                ==> exists|tr: Seq<(DownstreamH2, O, Seq<DownEvent>)>|
                #[trigger] down_pump_trace(*final(self), final(sink).events(), tr) && tr[0].2 == old(sink).events()
                    && crate::h2_buf::refs_of(tr[0].0.rx_segs()) == crate::h2_buf::refs_of(old(self).rx_segs()).skip(
                    24 - old(self).preface_seen(),
                ),
            down_events_extend(old(sink).events(), final(sink).events()),
            old(self).preface_seen() >= 24 && crate::h2_buf::refs_of(old(self).rx_segs()).len() < 9 ==> *final(self) == *old(self),
            old(self).preface_seen() >= 24 && crate::h2_buf::refs_of(old(self).rx_segs()).len() >= 9 ==> ({
                let h = rx_prefix(*old(ops), old(self).rx_segs(), 9);
                let whole = crate::h2_buf::refs_of(old(self).rx_segs()).len() >= 9 + parsed_len(h);
                let ty = frame_type_of_byte(h[3]);
                &&& parsed_len(h) > effective_max_frame(old(self).frame_size_in())
                    ==> down_failed(*old(self), *final(self), old(sink).events(), final(sink).events(), H2Code::FrameSizeError)
                &&& parsed_len(h) <= effective_max_frame(old(self).frame_size_in()) && !whole ==> *final(self) == *old(self)
                &&& parsed_len(h) <= effective_max_frame(old(self).frame_size_in()) && whole
                    && old(self).continuation_of() is Some && (ty != FrameType::Continuation
                    || parsed_stream_id(h) != old(self).continuation_of()->0)
                    ==> down_failed(*old(self), *final(self), old(sink).events(), final(sink).events(), H2Code::ProtocolError)
                &&& parsed_len(h) <= effective_max_frame(old(self).frame_size_in()) && whole
                    && old(self).continuation_of() is None && old(self).awaiting_settings() && ty != FrameType::Settings
                    ==> down_failed(*old(self), *final(self), old(sink).events(), final(sink).events(), H2Code::ProtocolError)
            }),
    {
        let ghost mut first = self.preface_off >= 24;
        if self.preface_off < 24 {
            let need = 24 - self.preface_off;
            if (self.rx.available() as usize) < need {
                return;
            }
            let pre = preface();
            let mut i: usize = 0;
            while i < need
                invariant
                    self.kept_from(old(self), *ops, *old(ops)),
                    old(self).owned_by(*old(ops)),
                    self.preface_off == old(self).preface_off,
                    pre@.len() == 24,
                    need == 24 - self.preface_off,
                    old(self).preface_seen() < 24,
                    crate::h2_buf::refs_of(old(self).rx_segs()).len() >= 24 - old(self).preface_seen(),
                    i <= need,
                    pre@ == preface_bytes(),
                    sink.events() == old(sink).events(),
                    self.tx_items() == old(self).tx_items(),
                    self.last_stream_id() == old(self).last_stream_id(),
                    crate::h2_buf::refs_of(self.rx_segs()) == crate::h2_buf::refs_of(old(self).rx_segs()).skip(i as int),
                    forall|k: int| i <= k < need ==> ({
                        let r = #[trigger] crate::h2_buf::refs_of(old(self).rx_segs())[k];
                        ops.byte_at(r.0, r.1) == old(ops).byte_at(r.0, r.1)
                    }),
                    forall|j: int| 0 <= j < i ==> #[trigger] rx_prefix(*old(ops), old(self).rx_segs(), need as int)[j]
                        == preface_bytes()[old(self).preface_seen() + j],
                decreases need - i,
            {
                let ghost r0 = crate::h2_buf::refs_of(old(self).rx_segs());
                proof {
                    assert forall|id: u16| #[trigger] ops.owners(id) >= self.held(id) by {
                        assert(old(ops).owners(id) >= old(self).held(id));
                    }
                    self.lemma_rx_covered(*ops);
                    assert(self.rx.refs()[0] == r0[i as int]);
                }
                let b = match self.rx.read_u8(ops) {
                    Ok(x) => x,
                    Err(_) => {
                        return;
                    },
                };
                proof {
                    assert(b == rx_prefix(*old(ops), old(self).rx_segs(), need as int)[i as int]);
                    assert forall|k: int| i + 1 <= k < need implies ({
                        let r = #[trigger] crate::h2_buf::refs_of(old(self).rx_segs())[k];
                        ops.byte_at(r.0, r.1) == old(ops).byte_at(r.0, r.1)
                    }) by {
                        let r = r0[k];
                        assert(self.rx.refs()[k - i - 1] == r);
                        crate::h2_buf::lemma_refs_in_segs(self.rx.segs(), k - i - 1);
                    }
                }
                if b != pre[self.preface_off + i] {
                    self.fail(H2Error::new(H2Code::ProtocolError, "bad client preface"), sink);
                    return;
                }
                i = i + 1;
            }
            proof {
                assert(rx_prefix(*old(ops), old(self).rx_segs(), need as int)
                    =~= preface_bytes().subrange(old(self).preface_seen() as int, 24));
            }
            self.preface_off = 24;
        }
        let ghost start = (*self, *ops, sink.events());
        let ghost mut tr: Seq<(DownstreamH2, O, Seq<DownEvent>)> = seq![start];
        let mut frames: usize = 0;
        while frames < 128
            invariant
                self.kept_from(old(self), *ops, *old(ops)),
                old(self).owned_by(*old(ops)),
                self.owned_by(*ops),
                self.preface_seen() >= 24,
                first ==> *self == *old(self) && *ops == *old(ops) && sink.events() == old(sink).events(),
                frames > 0 ==> !first,
                !first ==> old(self).preface_seen() >= 24 ==> old(self).first_frame_admitted(*old(ops)),
                old(self).preface_seen() < 24 ==> crate::h2_buf::refs_of(old(self).rx_segs()).len() >= 24 - old(self).preface_seen(),
                old(self).preface_seen() < 24 ==> !first,
                old(self).preface_seen() < 24 ==> self.preface_seen() == 24,
                old(self).preface_seen() < 24 ==> rx_prefix(*old(ops), old(self).rx_segs(), 24 - old(self).preface_seen())
                    == preface_bytes().subrange(old(self).preface_seen() as int, 24),
                first ==> old(self).preface_seen() >= 24,
                frames <= 128,
                tr.len() == frames + 1,
                tr[0] == start,
                old(self).preface_seen() >= 24 ==> start == (*old(self), *old(ops), old(sink).events()),
                old(self).preface_seen() < 24 ==> start.2 == old(sink).events() && crate::h2_buf::refs_of(start.0.rx_segs())
                    == crate::h2_buf::refs_of(old(self).rx_segs()).skip(24 - old(self).preface_seen()),
                tr.last() == (*self, *ops, sink.events()),
                down_frames_read(tr),
                down_events_extend(old(sink).events(), sink.events()),
            decreases 128 - frames,
        {
            let ghost b = *self;
            let r = self.read_frame(ops, sink);
            match r {
                FrameRead::Read => {},
                _ => {
                    proof {
                        assert(down_pump_trace(*self, sink.events(), tr));
                    }
                    return;
                },
            }
            proof {
                if first {
                    assert(old(self).first_frame_admitted(*old(ops)));
                }
                first = false;
                let tr0 = tr;
                tr = tr.push((*self, *ops, sink.events()));
                assert forall|k: int| 0 <= k < tr.len() - 1 implies #[trigger] down_frame_read(
                    tr[k].0, tr[k + 1].0, tr[k].1, tr[k].2, tr[k + 1].2, FrameRead::Read,
                ) by {
                    if k < tr0.len() - 1 {
                        assert(tr[k] == tr0[k] && tr[k + 1] == tr0[k + 1]);
                    }
                }
            }
            frames = frames + 1;
        }
        proof {
            assert(down_pump_trace(*self, sink.events(), tr));
        }
    }
}

impl DownstreamH2 {
    /// Gives every buffer the connection holds back to the pool: unread
    /// input, queued DATA payloads and pending bodies; the queues are left
    /// empty.
    pub fn release_all<O: BufOps>(&mut self, ops: &mut O)
        requires
            old(self).wf(),
        ensures
            final(self).wf(),
            final(self).rx_segs().len() == 0,
            final(self).tx_items().len() == 0,
            final(self).pending_items().len() == 0,
            forall|id: u16| #[trigger] final(ops).owners(id) == old(ops).owners(id) - old(self).held(id),
    {
        let ghost h0 = self.held(0);
        self.rx.release_all(ops);
        proof {
            assert(self.rx.segs() =~= Seq::<BufSeg>::empty());
        }
        loop
            invariant_except_break
                self.wf(),
                self.rx.segs().len() == 0,
                forall|id: u16| #[trigger] ops.owners(id) - self.held(id) == old(ops).owners(id) - old(self).held(id),
            ensures
                self.wf(),
                self.rx.segs().len() == 0,
                self.tx@.len() == 0,
                forall|id: u16| #[trigger] ops.owners(id) - self.held(id) == old(ops).owners(id) - old(self).held(id),
            decreases self.tx@.len(),
        {
            let ghost before = self.tx@;
            match self.tx.pop_front() {
                Some(item) => {
                    proof {
                        assert(before =~= seq![item] + self.tx@);
                        lemma_items_count_append(seq![item], self.tx@, 0);
                        assert forall|id: u16| #[trigger] items_count(before, id) == item_count(item, id) + items_count(self.tx@, id) by {
                            lemma_items_count_append(seq![item], self.tx@, id);
                            assert(seq![item].drop_last() =~= Seq::<TxItem>::empty());
                            assert(seq![item].last() == item);
                            assert(items_count(Seq::<TxItem>::empty(), id) == 0);
                            assert(items_count(seq![item], id) == item_count(item, id));
                        }
                        assert(tx_item_wf(before[0]));
                    }
                    match item {
                        TxItem::FrameData { header, payload, credit } => {
                            let mut payload = payload;
                            payload.release(ops);
                        },
                        _ => {},
                    }
                },
                None => {
                    break;
                },
            }
        }
        loop
            invariant_except_break
                self.wf(),
                self.rx.segs().len() == 0,
                self.tx@.len() == 0,
                forall|id: u16| #[trigger] ops.owners(id) - self.held(id) == old(ops).owners(id) - old(self).held(id),
            ensures
                self.wf(),
                self.rx.segs().len() == 0,
                self.tx@.len() == 0,
                self.pending@.len() == 0,
                forall|id: u16| #[trigger] ops.owners(id) - self.held(id) == old(ops).owners(id) - old(self).held(id),
            decreases self.pending@.len(),
        {
            let ghost before = self.pending@;
            match self.pending.pop_front() {
                Some(p) => {
                    proof {
                        assert forall|id: u16| #[trigger] pending_count(before, id) == count_id(p.data.segs(), id) + pending_count(self.pending@, id) by {
                            lemma_pending_count_front(before, id);
                            assert(before.drop_first() == self.pending@);
                        }
                        assert(before[0] == p);
                    }
                    let mut data = p.data;
                    data.release(ops);
                },
                None => {
                    break;
                },
            }
        }
        self.header_scratch.clear();
        proof {
            assert forall|id: u16| #[trigger] self.held(id) == 0 by {
                assert(count_id(self.rx_segs(), id) == 0);
                assert(items_count(self.tx@, id) == 0);
                assert(pending_count(self.pending@, id) == 0);
            }
        }
    }

    /// The send queue, for the writer.  Items taken off it leave the
    /// connection; the connection stays well formed as long as every DATA
    /// payload left in it is.
    pub fn tx_mut(&mut self) -> (r: &mut VecDeque<TxItem>)
        requires
            old(self).wf(),
        ensures
            r@ == old(self).tx_items(),
            final(self).tx_items() == final(r)@,
            final(self).same_except_tx(old(self)),
            (forall|i: int| 0 <= i < final(r)@.len() ==> tx_item_wf(#[trigger] final(r)@[i])) ==> final(self).wf(),
    {
        &mut self.tx
    }

    /// Everything but the send queue is the same in `self` and `other`.
    pub open spec fn same_except_tx(&self, other: &Self) -> bool {
        &&& self.stream_map() == other.stream_map()
        &&& self.stream_items() == other.stream_items()
        &&& self.conn_send_window() == other.conn_send_window()
        &&& self.conn_recv_window() == other.conn_recv_window()
        &&& self.last_stream_id() == other.last_stream_id()
        &&& self.peer_settings() == other.peer_settings()
        &&& self.local_settings() == other.local_settings()
        &&& self.conn_key() == other.conn_key()
        &&& self.pending_items() == other.pending_items()
        &&& self.rx_segs() == other.rx_segs()
        &&& self.continuation_of() == other.continuation_of()
        &&& self.stream_limit() == other.stream_limit()
        &&& self.preface_seen() == other.preface_seen()
        &&& self.awaiting_settings() == other.awaiting_settings()
        &&& self.frame_size_out() == other.frame_size_out()
        &&& self.frame_size_in() == other.frame_size_in()
    }

    /// Records the upstream stream that downstream stream `sid` is bridged
    /// to (nothing happens for an unknown stream).
    pub fn bind_uplink(&mut self, sid: u32, uplink: UpLink)
        requires
            old(self).wf(),
        ensures
            final(self).wf(),
            final(self).stream_map() == if old(self).stream_map().contains_key(sid) {
                old(self).stream_map().insert(sid, Stream { uplink: Some(uplink), ..old(self).stream_map()[sid] })
            } else {
                old(self).stream_map()
            },
            final(self).same_except_streams(old(self)),
    {
        proof {
            self.streams.lemma_sids_match();
        }
        match self.streams.get_mut(sid) {
            Some(st) => {
                st.uplink = Some(uplink);
            },
            None => {},
        }
    }

    /// The upstream stream that downstream stream `sid` is bridged to.
    pub fn uplink(&self, sid: u32) -> (r: Option<UpLink>)
        requires
            self.wf(),
        ensures
            r == if self.stream_map().contains_key(sid) {
                self.stream_map()[sid].uplink
            } else {
                None
            },
    {
        match self.streams.get(sid) {
            Some(st) => st.uplink,
            None => None,
        }
    }
}

} // verus!
