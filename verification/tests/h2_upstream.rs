use std::collections::HashMap;

use arc_gateway::h2_buf::{BufChain, BufOps, RxChunk, RxQueue};
use arc_gateway::h2_down::{Credit, TxItem};
use arc_gateway::h2_error::{H2Code, H2Error};
use arc_gateway::h2_flow::ConnKey;
use arc_gateway::h2_frame::{preface, FrameHeader, FrameType, FLAG_END_HEADERS, FLAG_END_STREAM};
use arc_gateway::h2_hpack::{Header, HpackEncoder};
use arc_gateway::h2_streams::DownLink;
use arc_gateway::h2_up::{parse_response_headers, UpstreamH2, UpstreamSink};

#[derive(Default)]
struct MockOps {
    bufs: HashMap<u16, Vec<u8>>,
    refs: HashMap<u16, i32>,
}

impl MockOps {
    fn put(&mut self, id: u16, data: Vec<u8>) {
        self.bufs.insert(id, data);
        self.refs.insert(id, 1);
    }

    fn refs(&self, id: u16) -> i32 {
        *self.refs.get(&id).unwrap_or(&0)
    }
}

impl BufOps for MockOps {
    fn slice<'a>(&'a self, buf_id: u16, off: u32, len: u32) -> &'a [u8] {
        let b = self.bufs.get(&buf_id).expect("buffer exists");
        let s = off as usize;
        let e = s + len as usize;
        &b[s..e]
    }

    fn release(&mut self, buf_id: u16) {
        if let Some(v) = self.refs.get_mut(&buf_id) {
            *v -= 1;
        }
    }

    fn retain(&mut self, buf_id: u16) {
        let e = self.refs.entry(buf_id).or_insert(0);
        *e += 1;
    }
}

fn frame(ty: FrameType, fl: u8, sid: u32, payload: &[u8]) -> Vec<u8> {
    let mut out = Vec::with_capacity(9 + payload.len());
    let mut hdr = [0u8; 9];
    FrameHeader { len: payload.len() as u32, ty, flags: fl, stream_id: sid }.write_into(&mut hdr);
    out.extend_from_slice(&hdr);
    out.extend_from_slice(payload);
    out
}

enum Event {
    RespHead { sid: u32, end_stream: bool, status: u16, headers: Vec<Header> },
    RespData { sid: u32, end_stream: bool, data: BufChain },
    Reset { sid: u32, code: H2Code },
    Goaway { last_sid: u32, code: H2Code },
    ConnError { code: H2Code, message: String },
}

#[derive(Default)]
struct Sink {
    ev: Vec<Event>,
}

impl UpstreamSink for Sink {
    fn on_response_headers(&mut self, _up: ConnKey, up_sid: u32, end_stream: bool, status: u16, headers: Vec<Header>) {
        self.ev.push(Event::RespHead { sid: up_sid, end_stream, status, headers });
    }

    fn on_response_data(&mut self, _up: ConnKey, up_sid: u32, end_stream: bool, data: BufChain) {
        self.ev.push(Event::RespData { sid: up_sid, end_stream, data });
    }

    fn on_rst_stream(&mut self, _up: ConnKey, up_sid: u32, code: H2Code) {
        self.ev.push(Event::Reset { sid: up_sid, code });
    }

    fn on_goaway(&mut self, _up: ConnKey, last_sid: u32, code: H2Code) {
        self.ev.push(Event::Goaway { last_sid, code });
    }

    fn on_conn_error(&mut self, _up: ConnKey, err: H2Error) {
        self.ev.push(Event::ConnError { code: err.code, message: err.message });
    }
}

fn link(sid: u32) -> DownLink {
    DownLink { down: ConnKey::new(9, 1), down_sid: sid }
}

fn hdr(name: &str, value: &str) -> Header {
    Header { name: name.as_bytes().to_vec(), value: value.as_bytes().to_vec() }
}

/// Drops the preface and SETTINGS that a new connection queues.
fn skip_handshake(u: &mut UpstreamH2) {
    assert!(matches!(u.pop_tx(), Some(TxItem::Raw { .. })));
    assert!(matches!(u.pop_tx(), Some(TxItem::FrameBytes { .. })));
}

fn feed(u: &mut UpstreamH2, ops: &mut MockOps, id: u16, wire: Vec<u8>, sink: &mut Sink) {
    let len = wire.len() as u32;
    ops.put(id, wire);
    u.push_rx(RxChunk { buf_id: id, off: 0, len });
    u.pump(0, ops, sink);
}

fn frames_of(u: &mut UpstreamH2) -> Vec<([u8; 9], usize)> {
    let mut out = Vec::new();
    while let Some(item) = u.pop_tx() {
        match item {
            TxItem::FrameBytes { header, payload } => {
                let mut h = [0u8; 9];
                h.copy_from_slice(&header[..9]);
                out.push((h, payload.len()));
            },
            TxItem::FrameData { header, payload, .. } => out.push((header, payload.total_len() as usize)),
            TxItem::Raw { bytes } => out.push(([0u8; 9], bytes.len())),
        }
    }
    out
}

#[test]
fn upstream_new_queues_preface_and_settings() {
    let mut u = UpstreamH2::new(ConnKey::new(1, 1), 7);
    match u.pop_tx() {
        Some(TxItem::Raw { bytes }) => assert_eq!(bytes, preface()),
        _ => panic!("expected the client preface"),
    }
    match u.pop_tx() {
        Some(TxItem::FrameBytes { header, payload }) => {
            assert_eq!(header[3], 0x4);
            assert_eq!(payload.len(), 36);
        },
        _ => panic!("expected SETTINGS"),
    }
    assert!(!u.has_tx());
    assert!(!u.local.enable_push);
}

#[test]
fn upstream_stream_ids_are_odd_and_increase() {
    let mut u = UpstreamH2::new(ConnKey::new(1, 1), 7);
    assert_eq!(u.open_stream(link(1)).unwrap(), 1);
    assert_eq!(u.open_stream(link(3)).unwrap(), 3);
    assert_eq!(u.open_stream(link(5)).unwrap(), 5);
    assert_eq!(u.active_streams(), 3);
    assert_eq!(u.downlink(3).map(|d| d.down_sid), Some(3));
    u.close_stream(3);
    assert!(u.downlink(3).is_none());
    assert_eq!(u.active_streams(), 2);
}

#[test]
fn peer_settings_limit_concurrency_and_are_acked() {
    let mut ops = MockOps::default();
    let mut u = UpstreamH2::new(ConnKey::new(1, 1), 7);
    skip_handshake(&mut u);
    let mut sink = Sink::default();
    feed(&mut u, &mut ops, 1, frame(FrameType::Settings, 0, 0, &[0, 3, 0, 0, 0, 1]), &mut sink);
    assert!(sink.ev.is_empty());
    let fr = frames_of(&mut u);
    assert_eq!(fr.len(), 1);
    assert_eq!(fr[0].0[3], 0x4);
    assert_eq!(fr[0].0[4], 0x1);
    assert!(u.can_open_stream());
    assert_eq!(u.open_stream(link(1)).unwrap(), 1);
    assert!(!u.can_open_stream());
    assert_eq!(u.open_stream(link(3)).unwrap_err().code, H2Code::RefusedStream);
}

#[test]
fn first_upstream_frame_must_be_settings() {
    let mut ops = MockOps::default();
    let mut u = UpstreamH2::new(ConnKey::new(1, 1), 7);
    let mut sink = Sink::default();
    feed(&mut u, &mut ops, 1, frame(FrameType::Ping, 0, 0, b"12345678"), &mut sink);
    match sink.ev.last() {
        Some(Event::ConnError { code, message }) => {
            assert_eq!(*code, H2Code::ProtocolError);
            assert_eq!(message, "first upstream frame must be SETTINGS");
        },
        _ => panic!("expected a connection error"),
    }
}

#[test]
fn response_headers_and_data_reach_the_sink_without_copying() {
    let mut ops = MockOps::default();
    let mut u = UpstreamH2::new(ConnKey::new(1, 1), 7);
    assert_eq!(u.open_stream(link(11)).unwrap(), 1);
    let mut enc = HpackEncoder::default();
    let hb = enc.encode_headers(&[hdr(":status", "200"), hdr("content-type", "text/plain")]);
    let mut wire = frame(FrameType::Settings, 0, 0, &[]);
    wire.extend_from_slice(&frame(FrameType::Headers, FLAG_END_HEADERS, 1, &hb));
    wire.extend_from_slice(&frame(FrameType::Data, FLAG_END_STREAM, 1, b"hello"));
    let mut sink = Sink::default();
    feed(&mut u, &mut ops, 4, wire, &mut sink);
    assert_eq!(sink.ev.len(), 2);
    match &sink.ev[0] {
        Event::RespHead { sid, end_stream, status, headers } => {
            assert_eq!(*sid, 1);
            assert!(!end_stream);
            assert_eq!(*status, 200);
            assert_eq!(headers.len(), 1);
            assert_eq!(headers[0].name, b"content-type".to_vec());
        },
        _ => panic!("expected response headers"),
    }
    match &mut sink.ev[1] {
        Event::RespData { sid, end_stream, data } => {
            assert_eq!(*sid, 1);
            assert!(*end_stream);
            let mut payload = Vec::new();
            for seg in data.iter() {
                assert_eq!(seg.buf_id, 4);
                payload.extend_from_slice(ops.slice(seg.buf_id, seg.off, seg.len));
            }
            assert_eq!(payload.as_slice(), b"hello");
            data.release(&mut ops);
        },
        _ => panic!("expected response data"),
    }
    assert_eq!(ops.refs(4), 0);
}

#[test]
fn data_on_closed_upstream_stream_is_a_connection_error() {
    let mut ops = MockOps::default();
    let mut u = UpstreamH2::new(ConnKey::new(1, 1), 7);
    let mut wire = frame(FrameType::Settings, 0, 0, &[]);
    wire.extend_from_slice(&frame(FrameType::Data, 0, 1, b"zz"));
    let mut sink = Sink::default();
    feed(&mut u, &mut ops, 2, wire, &mut sink);
    match sink.ev.last() {
        Some(Event::ConnError { code, message }) => {
            assert_eq!(*code, H2Code::StreamClosed);
            assert_eq!(message, "DATA on closed stream");
        },
        _ => panic!("expected a connection error"),
    }
}

#[test]
fn goaway_drains_the_connection() {
    let mut ops = MockOps::default();
    let mut u = UpstreamH2::new(ConnKey::new(1, 1), 7);
    let mut wire = frame(FrameType::Settings, 0, 0, &[]);
    wire.extend_from_slice(&frame(FrameType::Goaway, 0, 0, &[0, 0, 0, 5, 0, 0, 0, 0]));
    let mut sink = Sink::default();
    feed(&mut u, &mut ops, 2, wire, &mut sink);
    assert!(u.is_draining());
    assert!(!u.can_open_stream());
    assert!(matches!(sink.ev.last(), Some(Event::Goaway { last_sid: 5, code: H2Code::NoError })));
    assert_eq!(u.open_stream(link(1)).unwrap_err().code, H2Code::RefusedStream);
}

#[test]
fn rst_stream_from_upstream_closes_the_stream() {
    let mut ops = MockOps::default();
    let mut u = UpstreamH2::new(ConnKey::new(1, 1), 7);
    u.open_stream(link(1)).unwrap();
    let mut wire = frame(FrameType::Settings, 0, 0, &[]);
    wire.extend_from_slice(&frame(FrameType::RstStream, 0, 1, &[0, 0, 0, 8]));
    let mut sink = Sink::default();
    feed(&mut u, &mut ops, 2, wire, &mut sink);
    assert!(u.downlink(1).is_none());
    assert!(matches!(sink.ev.last(), Some(Event::Reset { sid: 1, code: H2Code::Cancel })));
}

#[test]
fn request_data_waits_for_window_and_keeps_its_credit() {
    let mut ops = MockOps::default();
    let mut u = UpstreamH2::new(ConnKey::new(1, 1), 7);
    skip_handshake(&mut u);
    let sid = u.open_stream(link(1)).unwrap();
    let body = vec![b'b'; 70_000];
    ops.put(3, body);
    let mut rx = RxQueue::new();
    rx.push_chunk(RxChunk { buf_id: 3, off: 0, len: 70_000 });
    let chain = rx.take_chain(70_000, &mut ops).expect("take_chain");
    let credit = Some(Credit::ToDownstream { conn: ConnKey::new(9, 1), sid: 1, bytes: 70_000 });
    u.send_request_data(sid, true, chain, credit, &mut ops).unwrap();

    // 65_535 bytes of window: three full frames and one of 16_383 bytes.
    let fr = frames_of(&mut u);
    assert_eq!(fr.iter().map(|f| f.1).collect::<Vec<_>>(), vec![16_384, 16_384, 16_384, 16_383]);
    assert!(fr.iter().all(|f| f.0[3] == 0x0 && f.0[4] & FLAG_END_STREAM == 0));

    let mut wire = frame(FrameType::Settings, 0, 0, &[]);
    wire.extend_from_slice(&frame(FrameType::WindowUpdate, 0, 0, &[0, 0, 0x27, 0x10]));
    wire.extend_from_slice(&frame(FrameType::WindowUpdate, 0, 1, &[0, 0, 0x27, 0x10]));
    let mut sink = Sink::default();
    feed(&mut u, &mut ops, 4, wire, &mut sink);
    assert!(sink.ev.is_empty());
    let fr = frames_of(&mut u);
    // SETTINGS ACK, then the last 4_465 bytes with END_STREAM.
    assert_eq!(fr.len(), 2);
    assert_eq!(fr[1].1, 4_465);
    assert_eq!(fr[1].0[4] & FLAG_END_STREAM, FLAG_END_STREAM);
}

#[test]
fn request_headers_need_an_open_stream() {
    let mut u = UpstreamH2::new(ConnKey::new(1, 1), 7);
    skip_handshake(&mut u);
    assert_eq!(u.send_request_headers(1, true, vec![]).unwrap_err().code, H2Code::StreamClosed);
    let sid = u.open_stream(link(1)).unwrap();
    u.send_request_headers(sid, true, vec![hdr(":method", "GET"), hdr(":path", "/")]).unwrap();
    let fr = frames_of(&mut u);
    assert_eq!(fr.len(), 1);
    assert_eq!(fr[0].0[3], 0x1);
    assert_eq!(fr[0].0[4], FLAG_END_HEADERS | FLAG_END_STREAM);
}

#[test]
fn credit_recv_window_sends_window_updates() {
    let mut u = UpstreamH2::new(ConnKey::new(1, 1), 7);
    skip_handshake(&mut u);
    let sid = u.open_stream(link(1)).unwrap();
    u.credit_recv_window(sid, 100);
    let fr = frames_of(&mut u);
    assert_eq!(fr.len(), 2);
    assert_eq!(fr[0].0[3], 0x8);
    assert_eq!(&fr[0].0[5..9], &[0, 0, 0, 1]);
    assert_eq!(&fr[1].0[5..9], &[0, 0, 0, 0]);
    u.credit_recv_window(77, 100);
    assert_eq!(frames_of(&mut u).len(), 1);
    u.credit_recv_window(sid, 0);
    assert!(!u.has_tx());
}

#[test]
fn response_header_rules() {
    let (st, rest) = parse_response_headers(vec![hdr(":status", "204"), hdr("server", "x")]).unwrap();
    assert_eq!(st, 204);
    assert_eq!(rest.len(), 1);
    let msg = |hs: Vec<Header>| parse_response_headers(hs).unwrap_err().message;
    assert_eq!(msg(vec![hdr("server", "x")]), "missing :status");
    assert_eq!(msg(vec![hdr(":status", "20")]), "bad :status");
    assert_eq!(msg(vec![hdr(":status", "2x0")]), "bad :status digits");
    assert_eq!(msg(vec![hdr(":path", "/")]), "unknown pseudo header in response");
    assert_eq!(
        msg(vec![hdr("server", "x"), hdr(":status", "200")]),
        "pseudo header after regular header (resp)"
    );
    assert_eq!(parse_response_headers(vec![hdr(":status", "200"), hdr(":status", "404")]).unwrap().0, 404);
}

#[test]
fn send_rst_stream_rejects_stream_zero() {
    let mut u = UpstreamH2::new(ConnKey::new(1, 1), 7);
    skip_handshake(&mut u);
    assert_eq!(u.send_rst_stream(0, H2Code::Cancel).unwrap_err().code, H2Code::ProtocolError);
    u.send_rst_stream(3, H2Code::Cancel).unwrap();
    let fr = frames_of(&mut u);
    assert_eq!(fr.len(), 1);
    assert_eq!(fr[0].0[3], 0x3);
}

fn credit_bytes(c: &Option<Credit>) -> u32 {
    match c {
        Some(Credit::ToDownstream { bytes, .. }) => *bytes,
        Some(Credit::ToUpstream { bytes, .. }) => *bytes,
        None => 0,
    }
}

fn frame_credits(u: &mut UpstreamH2) -> Vec<u32> {
    let mut out = Vec::new();
    while let Some(item) = u.pop_tx() {
        if let TxItem::FrameData { credit, .. } = item {
            out.push(credit_bytes(&credit));
        }
    }
    out
}

#[test]
fn request_data_credit_is_shared_out_without_loss() {
    let mut ops = MockOps::default();
    let mut u = UpstreamH2::new(ConnKey::new(1, 1), 7);
    skip_handshake(&mut u);
    let sid = u.open_stream(link(1)).unwrap();
    ops.put(3, vec![b'c'; 70_000]);
    let mut rx = RxQueue::new();
    rx.push_chunk(RxChunk { buf_id: 3, off: 0, len: 70_000 });
    let chain = rx.take_chain(70_000, &mut ops).expect("take_chain");
    let credit = Some(Credit::ToDownstream { conn: ConnKey::new(9, 1), sid: 1, bytes: 70_000 });
    u.send_request_data(sid, true, chain, credit, &mut ops).unwrap();
    let now = frame_credits(&mut u);
    assert_eq!(now, vec![16_384, 16_384, 16_384, 16_383]);

    let mut wire = frame(FrameType::Settings, 0, 0, &[]);
    wire.extend_from_slice(&frame(FrameType::WindowUpdate, 0, 0, &[0, 0, 0x27, 0x10]));
    wire.extend_from_slice(&frame(FrameType::WindowUpdate, 0, 1, &[0, 0, 0x27, 0x10]));
    let mut sink = Sink::default();
    feed(&mut u, &mut ops, 4, wire, &mut sink);
    let later = frame_credits(&mut u);
    assert_eq!(later, vec![4_465]);
    assert_eq!(now.iter().sum::<u32>() + later.iter().sum::<u32>(), 70_000);
}
