use std::collections::{HashMap, VecDeque};

use arc_gateway::h2_buf::{BufChain, BufOps, RxChunk, RxQueue};
use arc_gateway::h2_down::{Credit, DownstreamH2, DownstreamSink, RequestHead, TxItem};
use arc_gateway::h2_driver::drain_tx_to_writer;
use arc_gateway::h2_error::{H2Code, H2Error};
use arc_gateway::h2_flow::ConnKey;
use arc_gateway::h2_frame::{preface, FrameHeader, FrameType, FLAG_END_HEADERS, FLAG_END_STREAM};
use arc_gateway::h2_hpack::{Header, HpackEncoder};
use arc_gateway::h2_request::validate_and_build_request;

#[derive(Default)]
struct MockOps {
    bufs: HashMap<u16, Vec<u8>>,
    refs: HashMap<u16, i32>,
}

impl MockOps {
    fn put(&mut self, id: u16, data: Vec<u8>) {
        self.bufs.insert(id, data);
        self.refs.insert(id, 1);
    }

    fn refs(&self, id: u16) -> i32 {
        *self.refs.get(&id).unwrap_or(&0)
    }
}

impl BufOps for MockOps {
    fn slice<'a>(&'a self, buf_id: u16, off: u32, len: u32) -> &'a [u8] {
        let b = self.bufs.get(&buf_id).expect("buffer exists");
        let s = off as usize;
        let e = s + len as usize;
        &b[s..e]
    }

    fn release(&mut self, buf_id: u16) {
        if let Some(v) = self.refs.get_mut(&buf_id) {
            *v -= 1;
        }
    }

    fn retain(&mut self, buf_id: u16) {
        let e = self.refs.entry(buf_id).or_insert(0);
        *e += 1;
    }
}

fn frame(ty: FrameType, fl: u8, sid: u32, payload: &[u8]) -> Vec<u8> {
    let mut out = Vec::with_capacity(9 + payload.len());
    let mut hdr = [0u8; 9];
    FrameHeader { len: payload.len() as u32, ty, flags: fl, stream_id: sid }.write_into(&mut hdr);
    out.extend_from_slice(&hdr);
    out.extend_from_slice(payload);
    out
}

enum Event {
    ReqHead { sid: u32, end_stream: bool, method: Vec<u8>, path: Option<Vec<u8>> },
    ReqData { sid: u32, end_stream: bool, data: BufChain },
    Reset { sid: u32, code: H2Code },
    ConnError { code: H2Code },
}

#[derive(Default)]
struct Sink {
    ev: Vec<Event>,
}

impl DownstreamSink for Sink {
    fn on_request_headers(&mut self, _down: ConnKey, sid: u32, end_stream: bool, head: RequestHead) {
        self.ev.push(Event::ReqHead { sid, end_stream, method: head.method, path: head.path });
    }

    fn on_request_data(&mut self, _down: ConnKey, sid: u32, end_stream: bool, data: BufChain) {
        self.ev.push(Event::ReqData { sid, end_stream, data });
    }

    fn on_rst_stream(&mut self, _down: ConnKey, sid: u32, code: H2Code) {
        self.ev.push(Event::Reset { sid, code });
    }

    fn on_goaway(&mut self, _down: ConnKey, _last_sid: u32, _code: H2Code) {}

    fn on_conn_error(&mut self, _down: ConnKey, err: H2Error) {
        self.ev.push(Event::ConnError { code: err.code });
    }
}

fn request_headers() -> Vec<Header> {
    vec![
        Header { name: b":method".to_vec(), value: b"GET".to_vec() },
        Header { name: b":scheme".to_vec(), value: b"https".to_vec() },
        Header { name: b":authority".to_vec(), value: b"localhost".to_vec() },
        Header { name: b":path".to_vec(), value: b"/x".to_vec() },
    ]
}

#[test]
fn stream_removed_after_both_sides_end_stream() {
    let mut d = DownstreamH2::new(ConnKey::new(1, 1), 16, 0x42);
    d.ensure_stream_for_headers(1).expect("open stream");
    assert_eq!(d.stream_count(), 1);
    d.on_remote_end_stream(1);
    assert_eq!(d.stream_count(), 1);
    d.send_response_headers(1, 200, vec![], true).expect("send response headers");
    assert_eq!(d.stream_count(), 0);
    assert!(!d.has_stream(1));
}

#[test]
fn closed_streams_are_reclaimed_under_long_churn() {
    let mut d = DownstreamH2::new(ConnKey::new(2, 1), 32, 0x99);
    for i in 0..1024u32 {
        let sid = (i << 1) | 1;
        d.ensure_stream_for_headers(sid).expect("open downstream stream");
        d.on_remote_end_stream(sid);
        d.send_response_headers(sid, 200, vec![], true).expect("close downstream stream");
    }
    assert_eq!(d.stream_count(), 0);
}

#[test]
fn max_concurrent_streams_respects_constructor_limit() {
    let mut d = DownstreamH2::new(ConnKey::new(3, 1), 2, 0x1234);
    assert_eq!(d.local.max_concurrent_streams, 2);
    d.ensure_stream_for_headers(1).expect("open sid 1");
    d.ensure_stream_for_headers(3).expect("open sid 3");
    assert_eq!(d.stream_count(), 2);
    d.ensure_stream_for_headers(5).expect("overflow stream should be refused, not fatal");
    assert_eq!(d.stream_count(), 2);
}

#[test]
fn downstream_h2_parses_headers_and_zero_copy_data() {
    let mut enc = HpackEncoder::default();
    let hb = enc.encode_headers(&request_headers());
    let mut wire = Vec::new();
    wire.extend_from_slice(&preface());
    wire.extend_from_slice(&frame(FrameType::Settings, 0, 0, &[]));
    wire.extend_from_slice(&frame(FrameType::Headers, FLAG_END_HEADERS, 1, &hb));
    wire.extend_from_slice(&frame(FrameType::Data, FLAG_END_STREAM, 1, b"abc"));

    let mut ops = MockOps::default();
    ops.put(10, wire.clone());

    let key = ConnKey::new(7, 1);
    let mut d = DownstreamH2::new(key, 16, 0x1234);
    d.push_rx(RxChunk { buf_id: 10, off: 0, len: wire.len() as u32 });

    let mut sink = Sink::default();
    d.pump(0, &mut ops, &mut sink);

    assert!(sink.ev.len() >= 2);
    match &sink.ev[0] {
        Event::ReqHead { sid, end_stream, method, path } => {
            assert_eq!(*sid, 1);
            assert!(!end_stream);
            assert_eq!(method.as_slice(), b"GET");
            assert_eq!(path.as_ref().map(|x| x.as_slice()), Some(&b"/x"[..]));
        },
        _ => panic!("expected request headers event"),
    }
    match &mut sink.ev[1] {
        Event::ReqData { sid, end_stream, data } => {
            assert_eq!(*sid, 1);
            assert!(*end_stream);
            let mut payload = Vec::new();
            let mut first_id = None;
            for seg in data.iter() {
                if first_id.is_none() {
                    first_id = Some(seg.buf_id);
                }
                payload.extend_from_slice(ops.slice(seg.buf_id, seg.off, seg.len));
            }
            assert_eq!(first_id, Some(10));
            assert_eq!(payload.as_slice(), b"abc");
            data.release(&mut ops);
        },
        _ => panic!("expected request data event"),
    }
    assert_eq!(ops.refs(10), 0);
}

#[test]
fn driver_releases_payload_and_calls_credit() {
    let mut ops = MockOps::default();
    ops.put(5, b"XYZ".to_vec());

    let mut rx = RxQueue::new();
    rx.push_chunk(RxChunk { buf_id: 5, off: 0, len: 3 });
    let chain = rx.take_chain(3, &mut ops).expect("take_chain");

    let mut tx = VecDeque::new();
    tx.push_back(TxItem::FrameData {
        header: [0u8; 9],
        payload: chain,
        credit: Some(Credit::ToDownstream { conn: ConnKey::new(1, 1), sid: 3, bytes: 3 }),
    });

    let mut out: Vec<u8> = Vec::new();
    let mut credits = Vec::new();
    let n = drain_tx_to_writer(&mut tx, &mut ops, &mut out, &mut credits, 1024).expect("drain");
    assert_eq!(n, 12);
    assert!(tx.is_empty());
    assert_eq!(out.len(), 12);
    assert_eq!(ops.refs(5), 0);
    assert_eq!(credits.len(), 1);
}

#[test]
fn bad_preface_is_a_connection_error() {
    let mut ops = MockOps::default();
    let wire = b"GET / HTTP/1.1\r\nHost: x\r\n\r\n".to_vec();
    ops.put(1, wire.clone());
    let mut d = DownstreamH2::new(ConnKey::new(1, 1), 4, 1);
    d.push_rx(RxChunk { buf_id: 1, off: 0, len: wire.len() as u32 });
    let mut sink = Sink::default();
    d.pump(0, &mut ops, &mut sink);
    assert!(matches!(sink.ev.last(), Some(Event::ConnError { code: H2Code::ProtocolError })));
}

#[test]
fn first_frame_must_be_settings_and_ping_is_answered() {
    let mut ops = MockOps::default();
    let mut wire = preface();
    wire.extend_from_slice(&frame(FrameType::Ping, 0, 0, b"12345678"));
    ops.put(1, wire.clone());
    let mut d = DownstreamH2::new(ConnKey::new(1, 1), 4, 1);
    d.push_rx(RxChunk { buf_id: 1, off: 0, len: wire.len() as u32 });
    let mut sink = Sink::default();
    d.pump(0, &mut ops, &mut sink);
    assert!(matches!(sink.ev.last(), Some(Event::ConnError { code: H2Code::ProtocolError })));

    let mut ops2 = MockOps::default();
    let mut wire2 = preface();
    wire2.extend_from_slice(&frame(FrameType::Settings, 0, 0, &[]));
    wire2.extend_from_slice(&frame(FrameType::Ping, 0, 0, b"abcdefgh"));
    ops2.put(2, wire2.clone());
    let mut d2 = DownstreamH2::new(ConnKey::new(2, 1), 4, 1);
    d2.push_rx(RxChunk { buf_id: 2, off: 0, len: wire2.len() as u32 });
    let mut sink2 = Sink::default();
    d2.pump(0, &mut ops2, &mut sink2);
    assert!(sink2.ev.is_empty());
    let tx = d2.tx_mut();
    // server SETTINGS, SETTINGS ACK, PING ACK
    assert_eq!(tx.len(), 3);
    match &tx[2] {
        TxItem::FrameBytes { header, payload } => {
            assert_eq!(header[3], 0x6);
            assert_eq!(header[4], 0x1);
            assert_eq!(payload.as_slice(), b"abcdefgh");
        },
        _ => panic!("expected ping ack"),
    }
}

#[test]
fn rst_stream_from_client_drops_stream() {
    let mut enc = HpackEncoder::default();
    let hb = enc.encode_headers(&request_headers());
    let mut wire = preface();
    wire.extend_from_slice(&frame(FrameType::Settings, 0, 0, &[]));
    wire.extend_from_slice(&frame(FrameType::Headers, FLAG_END_HEADERS, 1, &hb));
    wire.extend_from_slice(&frame(FrameType::RstStream, 0, 1, &[0, 0, 0, 8]));
    let mut ops = MockOps::default();
    ops.put(3, wire.clone());
    let mut d = DownstreamH2::new(ConnKey::new(1, 1), 4, 1);
    d.push_rx(RxChunk { buf_id: 3, off: 0, len: wire.len() as u32 });
    let mut sink = Sink::default();
    d.pump(0, &mut ops, &mut sink);
    assert!(!d.has_stream(1));
    assert!(matches!(sink.ev.last(), Some(Event::Reset { sid: 1, code: H2Code::Cancel })));
}

#[test]
fn response_headers_split_into_continuations() {
    let mut d = DownstreamH2::new(ConnKey::new(1, 1), 4, 1);
    d.ensure_stream_for_headers(1).unwrap();
    let big = vec![Header { name: b"x-big".to_vec(), value: vec![b'a'; 40_000] }];
    d.send_response_headers(1, 200, big, false).unwrap();
    let tx = d.tx_mut();
    // SETTINGS, then HEADERS and two CONTINUATIONs of at most 16384 bytes.
    assert_eq!(tx.len(), 4);
    let mut total = 0usize;
    for (i, item) in tx.iter().skip(1).enumerate() {
        match item {
            TxItem::FrameBytes { header, payload } => {
                assert!(payload.len() <= 16_384);
                total += payload.len();
                assert_eq!(header[3], if i == 0 { 0x1 } else { 0x9 });
                assert_eq!(header[4] & FLAG_END_HEADERS != 0, i == 2);
            },
            _ => panic!("expected header frames"),
        }
    }
    assert!(total > 40_000);
    assert!(d.send_response_headers(9, 200, vec![], false).is_err());
}

#[test]
fn request_validation_rules() {
    let ok = validate_and_build_request(request_headers()).expect("valid");
    assert_eq!(ok.method, b"GET".to_vec());
    assert_eq!(ok.path, Some(b"/x".to_vec()));
    assert!(ok.headers.is_empty());

    let mut upper = request_headers();
    upper.push(Header { name: b"X-Up".to_vec(), value: b"1".to_vec() });
    assert_eq!(validate_and_build_request(upper).unwrap_err().message, "uppercase header name");

    let mut late = request_headers();
    late.insert(0, Header { name: b"accept".to_vec(), value: b"*/*".to_vec() });
    assert_eq!(validate_and_build_request(late).unwrap_err().message, "pseudo-header after regular header");

    let mut conn = request_headers();
    conn.push(Header { name: b"connection".to_vec(), value: b"close".to_vec() });
    assert_eq!(validate_and_build_request(conn).unwrap_err().message, "connection-specific header in h2");

    let mut te = request_headers();
    te.push(Header { name: b"te".to_vec(), value: b"gzip".to_vec() });
    assert_eq!(validate_and_build_request(te).unwrap_err().message, "TE must be trailers");
    let mut te_ok = request_headers();
    te_ok.push(Header { name: b"te".to_vec(), value: b"trailers".to_vec() });
    assert_eq!(validate_and_build_request(te_ok).unwrap().headers.len(), 1);

    let connect = vec![Header { name: b":method".to_vec(), value: b"CONNECT".to_vec() }];
    assert_eq!(validate_and_build_request(connect).unwrap_err().message, "CONNECT missing :authority");

    let bad_path = vec![
        Header { name: b":method".to_vec(), value: b"GET".to_vec() },
        Header { name: b":scheme".to_vec(), value: b"https".to_vec() },
        Header { name: b":path".to_vec(), value: b"x".to_vec() },
    ];
    let e = validate_and_build_request(bad_path).unwrap_err();
    assert_eq!(e.code, H2Code::ProtocolError);
    assert_eq!(e.message, ":path must start with '/'");
    assert_eq!(validate_and_build_request(vec![]).unwrap_err().message, "missing :method");
}

#[test]
fn window_update_with_zero_increment_is_a_protocol_error() {
    let mut ops = MockOps::default();
    let mut wire = preface();
    wire.extend_from_slice(&frame(FrameType::Settings, 0, 0, &[]));
    wire.extend_from_slice(&frame(FrameType::WindowUpdate, 0, 0, &[0x80, 0, 0, 0]));
    ops.put(1, wire.clone());
    let mut d = DownstreamH2::new(ConnKey::new(1, 1), 4, 1);
    d.push_rx(RxChunk { buf_id: 1, off: 0, len: wire.len() as u32 });
    let mut sink = Sink::default();
    d.pump(0, &mut ops, &mut sink);
    assert!(matches!(sink.ev.last(), Some(Event::ConnError { code: H2Code::ProtocolError })));
    let tx = d.tx_mut();
    match tx.back() {
        Some(TxItem::FrameBytes { header, payload }) => {
            assert_eq!(header[3], 0x7);
            assert_eq!(&payload[4..8], &[0, 0, 0, 1]);
        },
        _ => panic!("expected GOAWAY"),
    }
}

#[test]
fn window_update_past_the_limit_is_a_flow_control_error() {
    let mut ops = MockOps::default();
    let mut wire = preface();
    wire.extend_from_slice(&frame(FrameType::Settings, 0, 0, &[]));
    wire.extend_from_slice(&frame(FrameType::WindowUpdate, 0, 0, &[0x7f, 0xff, 0xff, 0xff]));
    ops.put(1, wire.clone());
    let mut d = DownstreamH2::new(ConnKey::new(1, 1), 4, 1);
    d.push_rx(RxChunk { buf_id: 1, off: 0, len: wire.len() as u32 });
    let mut sink = Sink::default();
    d.pump(0, &mut ops, &mut sink);
    assert!(matches!(sink.ev.last(), Some(Event::ConnError { code: H2Code::FlowControlError })));
}
