use std::collections::HashMap;

use arc_gateway::h2_bridge::{upstream_request_headers, Bridge, DownConnStore};
use arc_gateway::h2_buf::{BufOps, RxChunk};
use arc_gateway::h2_down::{DownstreamH2, RequestHead, TxItem};
use arc_gateway::h2_flow::ConnKey;
use arc_gateway::h2_frame::{preface, FrameHeader, FrameType, FLAG_END_HEADERS, FLAG_END_STREAM};
use arc_gateway::h2_hpack::{Header, HpackEncoder};
use arc_gateway::h2_pool::UpstreamPool;
use arc_gateway::h2_up::UpstreamH2;

#[derive(Default)]
struct MockOps {
    bufs: HashMap<u16, Vec<u8>>,
    refs: HashMap<u16, i32>,
}

impl MockOps {
    fn put(&mut self, id: u16, data: Vec<u8>) {
        self.bufs.insert(id, data);
        self.refs.insert(id, 1);
    }
}

impl BufOps for MockOps {
    fn slice<'a>(&'a self, buf_id: u16, off: u32, len: u32) -> &'a [u8] {
        let b = self.bufs.get(&buf_id).expect("buffer exists");
        &b[off as usize..(off + len) as usize]
    }

    fn release(&mut self, buf_id: u16) {
        if let Some(v) = self.refs.get_mut(&buf_id) {
            *v -= 1;
        }
    }

    fn retain(&mut self, buf_id: u16) {
        *self.refs.entry(buf_id).or_insert(0) += 1;
    }
}

struct OneDown {
    key: ConnKey,
    conn: DownstreamH2,
}

impl DownConnStore for OneDown {
    fn get_mut(&mut self, key: ConnKey) -> Option<&mut DownstreamH2> {
        if key == self.key {
            Some(&mut self.conn)
        } else {
            None
        }
    }
}

fn frame(ty: FrameType, fl: u8, sid: u32, payload: &[u8]) -> Vec<u8> {
    let mut out = Vec::new();
    let mut hdr = [0u8; 9];
    FrameHeader { len: payload.len() as u32, ty, flags: fl, stream_id: sid }.write_into(&mut hdr);
    out.extend_from_slice(&hdr);
    out.extend_from_slice(payload);
    out
}

fn hdr(name: &str, value: &str) -> Header {
    Header { name: name.as_bytes().to_vec(), value: value.as_bytes().to_vec() }
}

fn header_frames(items: Vec<TxItem>) -> Vec<(u8, u8, u32)> {
    let mut out = Vec::new();
    for item in items {
        if let TxItem::FrameBytes { header, .. } = item {
            let sid = u32::from_be_bytes([header[5], header[6], header[7], header[8]]) & 0x7fff_ffff;
            out.push((header[3], header[4], sid));
        }
    }
    out
}

fn drain_up(u: &mut UpstreamH2) -> Vec<TxItem> {
    let mut out = Vec::new();
    while let Some(i) = u.pop_tx() {
        out.push(i);
    }
    out
}

#[test]
fn pool_keys_follow_slot_generations() {
    let mut pool = UpstreamPool::new(2);
    assert!(pool.pick_ready().is_none());
    let k = pool.insert(1, UpstreamH2::new(ConnKey::new(0, 0), 1));
    assert_eq!((k.idx, k.gen), (1, 1));
    assert!(pool.get(k).is_some());
    assert!(pool.remove(k).is_some());
    assert!(pool.get(k).is_none());
    assert!(pool.remove(k).is_none());
    let k2 = pool.insert(1, UpstreamH2::new(ConnKey::new(0, 0), 1));
    assert_eq!((k2.idx, k2.gen), (1, 2));
    assert!(pool.get_mut(k).is_none());
    assert!(pool.get_mut(k2).is_some());
    assert!(pool.get(ConnKey::new(7, 1)).is_none());
}

#[test]
fn pool_picks_ready_connections_round_robin() {
    let mut pool = UpstreamPool::new(3);
    let a = pool.insert(0, UpstreamH2::new(ConnKey::new(0, 1), 1));
    let b = pool.insert(2, UpstreamH2::new(ConnKey::new(2, 1), 1));
    assert_eq!(pool.pick_ready(), Some(a));
    assert_eq!(pool.pick_ready(), Some(b));
    assert_eq!(pool.pick_ready(), Some(a));
    pool.get_mut(a).unwrap().mark_goaway(0, arc_gateway::h2_error::H2Code::NoError);
    assert_eq!(pool.pick_ready(), Some(b));
    assert_eq!(pool.pick_ready(), Some(b));
    pool.get_mut(b).unwrap().mark_goaway(0, arc_gateway::h2_error::H2Code::NoError);
    assert_eq!(pool.pick_ready(), None);
}

#[test]
fn upstream_request_takes_authority_from_host() {
    let head = RequestHead {
        method: b"GET".to_vec(),
        scheme: Some(b"https".to_vec()),
        authority: None,
        path: Some(b"/a".to_vec()),
        headers: vec![hdr("accept", "*/*"), hdr("host", "example.com"), hdr("host", "other")],
    };
    let hs = upstream_request_headers(head);
    let names: Vec<&[u8]> = hs.iter().map(|h| h.name.as_slice()).collect();
    assert_eq!(names, vec![&b":method"[..], b":scheme", b":authority", b":path", b"accept", b"host", b"host"]);
    assert_eq!(hs[2].value, b"example.com".to_vec());

    let bare = RequestHead { method: b"GET".to_vec(), scheme: None, authority: None, path: None, headers: vec![] };
    assert_eq!(upstream_request_headers(bare).len(), 1);
}

#[test]
fn bridge_carries_a_request_and_its_response() {
    let mut ops = MockOps::default();
    let down_key = ConnKey::new(5, 1);
    let mut store = OneDown { key: down_key, conn: DownstreamH2::new(down_key, 16, 3) };
    let mut pool = UpstreamPool::new(1);
    let up_key = pool.insert(0, UpstreamH2::new(ConnKey::new(0, 1), 9));
    let mut bridge = Bridge::new();

    // The client sends a request.
    let mut enc = HpackEncoder::default();
    let hb = enc.encode_headers(&[hdr(":method", "GET"), hdr(":scheme", "https"), hdr(":authority", "a"), hdr(":path", "/")]);
    let mut wire = preface();
    wire.extend_from_slice(&frame(FrameType::Settings, 0, 0, &[]));
    wire.extend_from_slice(&frame(FrameType::Headers, FLAG_END_HEADERS | FLAG_END_STREAM, 1, &hb));
    ops.put(1, wire.clone());
    store.conn.push_rx(RxChunk { buf_id: 1, off: 0, len: wire.len() as u32 });
    store.conn.pump(0, &mut ops, &mut bridge);
    bridge.drain(&mut ops, &mut store, &mut pool);

    // The request went out on upstream stream 1.
    let up = pool.get_mut(up_key).unwrap();
    assert_eq!(up.active_streams(), 1);
    assert_eq!(up.downlink(1).map(|l| l.down_sid), Some(1));
    let sent = header_frames(drain_up(up));
    assert!(sent.contains(&(0x1, FLAG_END_HEADERS | FLAG_END_STREAM, 1)));
    assert_eq!(store.conn.uplink(1).map(|l| (l.up_conn, l.up_sid)), Some((up_key, 1)));

    // The upstream answers.
    let mut enc2 = HpackEncoder::default();
    let rb = enc2.encode_headers(&[hdr(":status", "204")]);
    let mut resp = frame(FrameType::Settings, 0, 0, &[]);
    resp.extend_from_slice(&frame(FrameType::Headers, FLAG_END_HEADERS | FLAG_END_STREAM, 1, &rb));
    ops.put(2, resp.clone());
    let up = pool.get_mut(up_key).unwrap();
    up.push_rx(RxChunk { buf_id: 2, off: 0, len: resp.len() as u32 });
    up.pump(0, &mut ops, &mut bridge);
    bridge.drain(&mut ops, &mut store, &mut pool);

    // The response reached the client and both streams are done.
    assert_eq!(pool.get(up_key).unwrap().active_streams(), 0);
    assert!(!store.conn.has_stream(1));
    let frames = header_frames(store.conn.tx_mut().drain(..).collect());
    assert!(frames.contains(&(0x1, FLAG_END_HEADERS | FLAG_END_STREAM, 1)));
}

#[test]
fn bridge_answers_503_without_a_ready_upstream() {
    let mut ops = MockOps::default();
    let down_key = ConnKey::new(5, 1);
    let mut store = OneDown { key: down_key, conn: DownstreamH2::new(down_key, 16, 3) };
    let mut pool = UpstreamPool::new(1);
    let mut bridge = Bridge::new();
    let mut enc = HpackEncoder::default();
    let hb = enc.encode_headers(&[hdr(":method", "GET"), hdr(":scheme", "https"), hdr(":path", "/")]);
    let mut wire = preface();
    wire.extend_from_slice(&frame(FrameType::Settings, 0, 0, &[]));
    wire.extend_from_slice(&frame(FrameType::Headers, FLAG_END_HEADERS, 1, &hb));
    ops.put(1, wire.clone());
    store.conn.push_rx(RxChunk { buf_id: 1, off: 0, len: wire.len() as u32 });
    store.conn.pump(0, &mut ops, &mut bridge);
    bridge.drain(&mut ops, &mut store, &mut pool);
    assert!(store.conn.uplink(1).is_none());
    // SETTINGS, SETTINGS ACK, then the 503 HEADERS that ends this side.
    let frames = header_frames(store.conn.tx_mut().drain(..).collect());
    assert_eq!(frames.last(), Some(&(0x1, FLAG_END_HEADERS | FLAG_END_STREAM, 1)));
}
