use std::collections::HashMap;

use arc_gateway::h2_buf::{BufChain, BufOps, BufSeg, RxChunk, RxQueue};
use arc_gateway::h2_error::H2Code;
use arc_gateway::h2_hpack::{size_updates_are_whole, Header, HeaderBlockLimits, HpackDecoder, HpackEncoder};
use arc_gateway::h2_frame::{FrameHeader, FrameType, FLAG_END_HEADERS, FRAME_HEADER_LEN};
use arc_gateway::h2_settings::{Settings, SETTINGS_INITIAL_WINDOW_SIZE, SETTINGS_MAX_FRAME_SIZE};
use arc_gateway::h2_streams::{Stream, StreamSet, StreamState};
use arc_gateway::u32map::U32Map;

#[derive(Default)]
struct MockOps {
    bufs: HashMap<u16, Vec<u8>>,
    refs: HashMap<u16, i32>,
}

impl MockOps {
    fn put(&mut self, id: u16, data: &[u8]) {
        self.bufs.insert(id, data.to_vec());
        self.refs.insert(id, 1);
    }

    fn refs(&self, id: u16) -> i32 {
        *self.refs.get(&id).unwrap_or(&0)
    }
}

impl BufOps for MockOps {
    fn slice<'a>(&'a self, buf_id: u16, off: u32, len: u32) -> &'a [u8] {
        let b = self.bufs.get(&buf_id).expect("buffer");
        &b[off as usize..(off + len) as usize]
    }

    fn release(&mut self, buf_id: u16) {
        if let Some(v) = self.refs.get_mut(&buf_id) {
            *v -= 1;
        }
    }

    fn retain(&mut self, buf_id: u16) {
        let e = self.refs.entry(buf_id).or_insert(0);
        *e += 1;
    }
}

#[test]
fn rx_take_chain_split_is_refcount_safe() {
    let mut ops = MockOps::default();
    ops.put(7, b"abcdef");

    let mut rx = RxQueue::new();
    rx.push_chunk(RxChunk { buf_id: 7, off: 0, len: 6 });

    let mut c = rx.take_chain(4, &mut ops).expect("take");
    assert_eq!(c.total_len(), 4);
    assert_eq!(rx.available(), 2);
    assert_eq!(ops.refs(7), 2);

    rx.consume(2, &mut ops).expect("consume tail");
    assert_eq!(ops.refs(7), 1);

    c.release(&mut ops);
    assert_eq!(ops.refs(7), 0);
}

#[test]
fn chain_take_prefix_keeps_zero_copy_and_balance() {
    let mut ops = MockOps::default();
    ops.put(3, b"012345");

    let mut chain = BufChain::new();
    chain.push_seg(3, 0, 6);

    let mut head = chain.take_prefix(2, &mut ops);
    assert_eq!(head.total_len(), 2);
    assert_eq!(chain.total_len(), 4);
    assert_eq!(ops.refs(3), 2);

    head.release(&mut ops);
    assert_eq!(ops.refs(3), 1);
    chain.release(&mut ops);
    assert_eq!(ops.refs(3), 0);
}

#[test]
fn chain_segments_follow_the_split() {
    let mut ops = MockOps::default();
    ops.put(5, b"hello world");
    let mut chain = BufChain::new();
    chain.push_seg(5, 0, 5);
    chain.push_seg(5, 5, 6);
    let head = chain.take_prefix(7, &mut ops);
    assert_eq!(
        head.iter(),
        vec![BufSeg { buf_id: 5, off: 0, len: 5 }, BufSeg { buf_id: 5, off: 5, len: 2 }]
    );
    assert_eq!(chain.iter(), vec![BufSeg { buf_id: 5, off: 7, len: 4 }]);
    assert!(!chain.is_empty());
}

#[test]
fn rx_queue_reads_copies_and_peeks() {
    let mut ops = MockOps::default();
    ops.put(1, b"abc");
    ops.put(2, b"defg");
    let mut rx = RxQueue::new();
    rx.push_chunk(RxChunk { buf_id: 1, off: 0, len: 3 });
    rx.push_chunk(RxChunk { buf_id: 2, off: 0, len: 4 });
    let mut peek = [0u8; 5];
    assert!(rx.peek_exact(5, &ops, &mut peek));
    assert_eq!(&peek, b"abcde");
    assert_eq!(rx.read_u8(&mut ops), Ok(b'a'));
    let mut out = Vec::new();
    rx.copy_into_vec(3, &mut ops, &mut out).expect("copy");
    assert_eq!(out, b"bcd".to_vec());
    assert_eq!(ops.refs(1), 0);
    assert_eq!(rx.available(), 3);
    assert!(rx.consume(4, &mut ops).is_err());
    rx.release_all(&mut ops);
    assert_eq!(rx.available(), 0);
    assert_eq!(ops.refs(2), 0);
}

#[test]
fn u32map_tombstone_rehash_stays_bounded() {
    let mut m = U32Map::with_capacity_pow2(16, 0x1234);
    let initial_cap = m.slot_count();

    for i in 0..20_000u32 {
        let sid = (i << 1) | 1;
        assert!(m.insert(sid, i));
        assert_eq!(m.get(sid), Some(i));
        assert_eq!(m.remove(sid), Some(i));
    }

    assert!(m.slot_count() <= initial_cap * 2);
}

#[test]
fn streamset_churn_keeps_index_map_bounded() {
    let mut set = StreamSet::new(32, 0x9abc);
    let initial_cap = set.index_slots();

    for i in 0..10_000u32 {
        let sid = (i << 1) | 1;
        let mut st = Stream::new(sid, 65_535, 65_535);
        st.state = StreamState::Open;
        assert!(set.insert(st));
        assert!(set.remove(sid).is_some());
    }

    assert_eq!(set.len(), 0);
    assert!(set.index_slots() <= initial_cap * 2);
}

#[test]
fn streamset_refuses_past_capacity() {
    let mut set = StreamSet::new(2, 7);
    assert!(set.insert(Stream::new(1, 10, 10)));
    assert!(set.insert(Stream::new(3, 10, 10)));
    assert!(!set.insert(Stream::new(5, 10, 10)));
    assert!(!set.insert(Stream::new(1, 10, 10)));
    assert_eq!(set.len(), 2);
    assert!(set.get(3).is_some());
    assert!(set.get(5).is_none());
}

#[test]
fn frame_header_roundtrip() {
    let h = FrameHeader { len: 1024, ty: FrameType::Headers, flags: FLAG_END_HEADERS, stream_id: 0x7fff_fffe };
    let mut b = [0u8; FRAME_HEADER_LEN];
    h.write_into(&mut b);
    let p = FrameHeader::parse(&b, 16_384).expect("parse");
    assert_eq!(p.len, h.len);
    assert_eq!(p.ty, h.ty);
    assert_eq!(p.flags, h.flags);
    assert_eq!(p.stream_id, h.stream_id);
}

#[test]
fn frame_size_guard_works() {
    let mut b = [0u8; FRAME_HEADER_LEN];
    b[0] = 0;
    b[1] = 0x50;
    b[2] = 0x00;
    b[3] = FrameType::Data.as_u8();
    let e = FrameHeader::parse(&b, 16_384).unwrap_err();
    assert_eq!(e.code, H2Code::FrameSizeError);
}

#[test]
fn frame_header_bytes_are_big_endian_with_reserved_bit_cleared() {
    let h = FrameHeader { len: 0x01_02_03, ty: FrameType::Settings, flags: 0x1, stream_id: 0x8000_0005 };
    let mut b = [0u8; FRAME_HEADER_LEN];
    h.write_into(&mut b);
    assert_eq!(b, [0x01, 0x02, 0x03, 0x4, 0x1, 0x00, 0x00, 0x00, 0x05]);
    let p = FrameHeader::parse(&b, 0x01_02_03).expect("parse");
    assert_eq!(p.stream_id, 5);
}

#[test]
fn apply_settings_and_delta() {
    let mut s = Settings::default();
    let mut p = Vec::new();
    p.extend_from_slice(&SETTINGS_INITIAL_WINDOW_SIZE.to_be_bytes());
    p.extend_from_slice(&(70_000u32).to_be_bytes());
    p.extend_from_slice(&SETTINGS_MAX_FRAME_SIZE.to_be_bytes());
    p.extend_from_slice(&(32_768u32).to_be_bytes());

    let d = s.apply_from_payload(&p).expect("apply");
    assert_eq!(s.initial_window_size, 70_000);
    assert_eq!(s.max_frame_size, 32_768);
    assert_eq!(d.initial_window_delta(), 70_000 - 65_535);
}

#[test]
fn invalid_initial_window_rejected() {
    let mut s = Settings::default();
    let mut p = Vec::new();
    p.extend_from_slice(&SETTINGS_INITIAL_WINDOW_SIZE.to_be_bytes());
    p.extend_from_slice(&(0x8000_0000u32).to_be_bytes());
    let e = s.apply_from_payload(&p).unwrap_err();
    assert_eq!(e.code, H2Code::FlowControlError);
}

#[test]
fn settings_encode_then_apply_gives_them_back() {
    let mut a = Settings::default();
    a.initial_window_size = 1_000_000;
    a.max_frame_size = 65_536;
    a.enable_push = false;
    let mut bytes = Vec::new();
    a.encode_into(&mut bytes);
    let mut b = Settings::default();
    b.apply_from_payload(&bytes).expect("apply");
    assert_eq!(b, a);
}

#[test]
fn hpack_roundtrip() {
    let mut enc = HpackEncoder::default();
    let headers = vec![
        Header { name: b":method".to_vec(), value: b"GET".to_vec() },
        Header { name: b":path".to_vec(), value: b"/x".to_vec() },
        Header { name: b"host".to_vec(), value: b"example.com".to_vec() },
    ];
    let block = enc.encode_headers(&headers);
    let mut dec = HpackDecoder::new(HeaderBlockLimits::default());
    let out = dec.decode(&block).expect("decode");
    assert_eq!(out.len(), headers.len());
    for (a, b) in out.iter().zip(headers.iter()) {
        assert_eq!(a.name, b.name);
        assert_eq!(a.value, b.value);
    }
}

#[test]
fn hpack_decoder_enforces_limits() {
    let mut enc = HpackEncoder::default();
    let headers = vec![
        Header { name: b"a".to_vec(), value: b"1".to_vec() },
        Header { name: b"b".to_vec(), value: b"2".to_vec() },
    ];
    let block = enc.encode_headers(&headers);
    let mut dec = HpackDecoder::new(HeaderBlockLimits { max_headers: 1, max_header_block_bytes: 1024 });
    assert_eq!(dec.decode(&block).unwrap_err().code, H2Code::ProtocolError);
    let mut small = HpackDecoder::new(HeaderBlockLimits { max_headers: 8, max_header_block_bytes: 2 });
    assert_eq!(small.decode(&block).unwrap_err().code, H2Code::FrameSizeError);
    // A size update whose integer runs past the block is refused, not decoded.
    let mut d3 = HpackDecoder::new(HeaderBlockLimits::default());
    let e = d3.decode(&[0x3f]).unwrap_err();
    assert_eq!(e.code, H2Code::CompressionError);
    // An index the tables do not hold is the decoder's own error.
    let mut d4 = HpackDecoder::new(HeaderBlockLimits::default());
    let e4 = d4.decode(&[0xff, 0x00]).unwrap_err();
    assert_eq!(e4.code, H2Code::CompressionError);
    assert!(e4.message.starts_with("hpack decode failed: "));
}

#[test]
fn hpack_size_update_walk() {
    assert!(size_updates_are_whole(&[]));
    assert!(size_updates_are_whole(&[0x82, 0x86]));
    assert!(size_updates_are_whole(&[0x20]));
    assert!(!size_updates_are_whole(&[0x3f]));
    assert!(size_updates_are_whole(&[0x3f, 0xe1, 0x1f]));
    // 0x3f inside a literal value is data, not a size update.
    assert!(size_updates_are_whole(&[0x00, 0x01, b'a', 0x01, 0x3f]));
    assert!(!size_updates_are_whole(&[0x82, 0x3f, 0x80]));
}

#[test]
fn u32map_churn_with_few_live_keys_keeps_its_size() {
    let mut m = U32Map::with_capacity_pow2(16, 0x55);
    assert_eq!(m.slot_count(), 16);
    for i in 0..5_000u32 {
        let k = i + 1;
        assert!(m.insert(k, i));
        if i >= 3 {
            assert_eq!(m.remove(k - 3), Some(i - 3));
        }
        assert_eq!(m.slot_count(), 16);
    }
}
