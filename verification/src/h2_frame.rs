use vstd::prelude::*;

use crate::h2_error::{H2Code, H2Error};

verus! {

/// Length of the fixed frame header.
pub const FRAME_HEADER_LEN: usize = 9;

/// Frame flag bits.
pub const FLAG_ACK: u8 = 0x1;
pub const FLAG_END_STREAM: u8 = 0x1;
pub const FLAG_END_HEADERS: u8 = 0x4;
pub const FLAG_PADDED: u8 = 0x8;
pub const FLAG_PRIORITY: u8 = 0x20;

/// Largest frame payload length the 24-bit length field can carry.
pub const MAX_FRAME_LEN_FIELD: u32 = 16_777_215;

/// The client connection preface.
pub fn preface() -> (r: Vec<u8>)
    ensures
        r@ == preface_bytes(),
{
    let v: Vec<u8> = vec![
        0x50, 0x52, 0x49, 0x20, 0x2a, 0x20, 0x48, 0x54, 0x54, 0x50, 0x2f, 0x32, 0x2e, 0x30,
        0x0d, 0x0a, 0x0d, 0x0a, 0x53, 0x4d, 0x0d, 0x0a, 0x0d, 0x0a,
    ];
    v
}

/// `PRI * HTTP/2.0\r\n\r\nSM\r\n\r\n` as bytes.
pub open spec fn preface_bytes() -> Seq<u8> {
    seq![
        0x50u8, 0x52, 0x49, 0x20, 0x2a, 0x20, 0x48, 0x54, 0x54, 0x50, 0x2f, 0x32, 0x2e, 0x30,
        0x0d, 0x0a, 0x0d, 0x0a, 0x53, 0x4d, 0x0d, 0x0a, 0x0d, 0x0a,
    ]
}

#[derive(Clone, Copy, Debug, PartialEq, Eq)]
pub enum FrameType {
    Data,
    Headers,
    Priority,
    RstStream,
    Settings,
    PushPromise,
    Ping,
    Goaway,
    WindowUpdate,
    Continuation,
    Unknown(u8),
}

/// The type byte of a frame type.
pub open spec fn frame_type_byte(t: FrameType) -> u8 {
    match t {
        FrameType::Data => 0x0,
        FrameType::Headers => 0x1,
        FrameType::Priority => 0x2,
        FrameType::RstStream => 0x3,
        FrameType::Settings => 0x4,
        FrameType::PushPromise => 0x5,
        FrameType::Ping => 0x6,
        FrameType::Goaway => 0x7,
        FrameType::WindowUpdate => 0x8,
        FrameType::Continuation => 0x9,
        FrameType::Unknown(x) => x,
    }
}

/// The frame type a type byte denotes.
pub open spec fn frame_type_of_byte(v: u8) -> FrameType {
    if v == 0x0 {
        FrameType::Data
    } else if v == 0x1 {
        FrameType::Headers
    } else if v == 0x2 {
        FrameType::Priority
    } else if v == 0x3 {
        FrameType::RstStream
    } else if v == 0x4 {
        FrameType::Settings
    } else if v == 0x5 {
        FrameType::PushPromise
    } else if v == 0x6 {
        FrameType::Ping
    } else if v == 0x7 {
        FrameType::Goaway
    } else if v == 0x8 {
        FrameType::WindowUpdate
    } else if v == 0x9 {
        FrameType::Continuation
    } else {
        FrameType::Unknown(v)
    }
}

/// A frame type is canonical when it is the type its own byte denotes
/// (`Unknown` is only ever produced for bytes above 9).
pub open spec fn frame_type_canonical(t: FrameType) -> bool {
    match t {
        FrameType::Unknown(x) => x > 9,
        _ => true,
    }
}

impl FrameType {
    pub fn from_u8(v: u8) -> (r: FrameType)
        ensures
            r == frame_type_of_byte(v),
    {
        match v {
            0x0 => FrameType::Data,
            0x1 => FrameType::Headers,
            0x2 => FrameType::Priority,
            0x3 => FrameType::RstStream,
            0x4 => FrameType::Settings,
            0x5 => FrameType::PushPromise,
            0x6 => FrameType::Ping,
            0x7 => FrameType::Goaway,
            0x8 => FrameType::WindowUpdate,
            0x9 => FrameType::Continuation,
            x => FrameType::Unknown(x),
        }
    }

    pub fn as_u8(self) -> (r: u8)
        ensures
            r == frame_type_byte(self),
    {
        match self {
            FrameType::Data => 0x0,
            FrameType::Headers => 0x1,
            FrameType::Priority => 0x2,
            FrameType::RstStream => 0x3,
            FrameType::Settings => 0x4,
            FrameType::PushPromise => 0x5,
            FrameType::Ping => 0x6,
            FrameType::Goaway => 0x7,
            FrameType::WindowUpdate => 0x8,
            FrameType::Continuation => 0x9,
            FrameType::Unknown(x) => x,
        }
    }
}

/// Every type byte survives decoding and encoding again.
pub proof fn lemma_type_byte_roundtrip(v: u8)
    ensures
        frame_type_byte(frame_type_of_byte(v)) == v,
        frame_type_canonical(frame_type_of_byte(v)),
{
}

/// A canonical frame type survives encoding and decoding again.
pub proof fn lemma_frame_type_roundtrip(t: FrameType)
    requires
        frame_type_canonical(t),
    ensures
        frame_type_of_byte(frame_type_byte(t)) == t,
{
}

#[derive(Clone, Copy, Debug, PartialEq, Eq)]
pub struct FrameHeader {
    pub len: u32,
    pub ty: FrameType,
    pub flags: u8,
    pub stream_id: u32,
}

/// The nine header bytes written for a header: the low 24 bits of the length
/// (big-endian), the type byte, the flags, and the low 31 bits of the stream id
/// (big-endian, reserved bit clear).
pub open spec fn header_bytes(h: FrameHeader) -> Seq<u8> {
    let len = h.len as int % 0x100_0000;
    let sid = h.stream_id as int % 0x8000_0000;
    seq![
        (len / 0x1_0000) as u8,
        (len / 0x100 % 0x100) as u8,
        (len % 0x100) as u8,
        frame_type_byte(h.ty),
        h.flags,
        (sid / 0x100_0000) as u8,
        (sid / 0x1_0000 % 0x100) as u8,
        (sid / 0x100 % 0x100) as u8,
        (sid % 0x100) as u8,
    ]
}

/// The payload length a header's bytes announce.
pub open spec fn parsed_len(b: Seq<u8>) -> int {
    b[0] as int * 0x1_0000 + b[1] as int * 0x100 + b[2] as int
}

/// The stream id a header's bytes carry (reserved bit ignored).
pub open spec fn parsed_stream_id(b: Seq<u8>) -> int {
    (b[5] as int % 0x80) * 0x100_0000 + b[6] as int * 0x1_0000 + b[7] as int * 0x100 + b[8] as int
}

/// The frame-size limit actually enforced: the peer's limit, capped by what
/// the length field can hold.
pub open spec fn effective_max_frame(max_frame_size: u32) -> int {
    if max_frame_size < MAX_FRAME_LEN_FIELD {
        max_frame_size as int
    } else {
        MAX_FRAME_LEN_FIELD as int
    }
}

proof fn lemma_be24(len: u32)
    requires
        len < 0x100_0000,
    ensures
        ((len >> 16) & 0xff) as int == len as int / 0x1_0000,
        ((len >> 8) & 0xff) as int == len as int / 0x100 % 0x100,
        (len & 0xff) as int == len as int % 0x100,
{
    assert((len >> 16) & 0xff == len / 0x1_0000) by (bit_vector)
        requires
            len < 0x100_0000,
    ;
    assert((len >> 8) & 0xff == (len / 0x100) % 0x100) by (bit_vector);
    assert(len & 0xff == len % 0x100) by (bit_vector);
}

proof fn lemma_be31(sid: u32)
    requires
        sid < 0x8000_0000,
    ensures
        ((sid >> 24) & 0xff) as int == sid as int / 0x100_0000,
        ((sid >> 16) & 0xff) as int == sid as int / 0x1_0000 % 0x100,
        ((sid >> 8) & 0xff) as int == sid as int / 0x100 % 0x100,
        (sid & 0xff) as int == sid as int % 0x100,
{
    assert((sid >> 24) & 0xff == sid / 0x100_0000) by (bit_vector);
    assert((sid >> 16) & 0xff == (sid / 0x1_0000) % 0x100) by (bit_vector);
    assert((sid >> 8) & 0xff == (sid / 0x100) % 0x100) by (bit_vector);
    assert(sid & 0xff == sid % 0x100) by (bit_vector);
}

proof fn lemma_masks(len: u32, sid: u32)
    ensures
        (len & 0x00ff_ffff) as int == len as int % 0x100_0000,
        (sid & 0x7fff_ffff) as int == sid as int % 0x8000_0000,
{
    assert(len & 0x00ff_ffff == len % 0x100_0000) by (bit_vector);
    assert(sid & 0x7fff_ffff == sid % 0x8000_0000) by (bit_vector);
}

proof fn lemma_parse_arith(b0: u8, b1: u8, b2: u8, b5: u8, b6: u8, b7: u8, b8: u8)
    ensures
        (((b0 as u32) << 16) | ((b1 as u32) << 8) | (b2 as u32)) as int == b0 as int * 0x1_0000
            + b1 as int * 0x100 + b2 as int,
        ((((b5 as u32) << 24) | ((b6 as u32) << 16) | ((b7 as u32) << 8) | (b8 as u32))
            & 0x7fff_ffff) as int == (b5 as int % 0x80) * 0x100_0000 + b6 as int * 0x1_0000
            + b7 as int * 0x100 + b8 as int,
{
    assert((((b0 as u32) << 16) | ((b1 as u32) << 8) | (b2 as u32)) == (b0 as u32) * 0x1_0000
        + (b1 as u32) * 0x100 + (b2 as u32)) by (bit_vector);
    assert(((((b5 as u32) << 24) | ((b6 as u32) << 16) | ((b7 as u32) << 8) | (b8 as u32))
        & 0x7fff_ffff) == ((b5 as u32) % 0x80) * 0x100_0000 + (b6 as u32) * 0x1_0000 + (b7 as u32)
        * 0x100 + (b8 as u32)) by (bit_vector);
}

impl FrameHeader {
    /// Writes the nine header bytes.
    pub fn write_into(&self, out: &mut [u8; FRAME_HEADER_LEN])
        ensures
            final(out)@ == header_bytes(*self),
    {
        let len = self.len & 0x00ff_ffff;
        let sid = self.stream_id & 0x7fff_ffff;
        proof {
            lemma_masks(self.len, self.stream_id);
            lemma_be24(len);
            lemma_be31(sid);
        }
        *out = [
            ((len >> 16) & 0xff) as u8,
            ((len >> 8) & 0xff) as u8,
            (len & 0xff) as u8,
            self.ty.as_u8(),
            self.flags,
            ((sid >> 24) & 0xff) as u8,
            ((sid >> 16) & 0xff) as u8,
            ((sid >> 8) & 0xff) as u8,
            (sid & 0xff) as u8,
        ];
        assert(out@ =~= header_bytes(*self));
    }

    /// Parses nine header bytes; a payload longer than the peer's limit (capped
    /// at 2^24 - 1) is a frame size error.
    pub fn parse(inp: &[u8; FRAME_HEADER_LEN], max_frame_size: u32) -> (r: Result<
        FrameHeader,
        H2Error,
    >)
        ensures
            match r {
                Ok(h) => {
                    &&& parsed_len(inp@) <= effective_max_frame(max_frame_size)
                    &&& h.len == parsed_len(inp@)
                    &&& h.ty == frame_type_of_byte(inp@[3])
                    &&& h.flags == inp@[4]
                    &&& h.stream_id == parsed_stream_id(inp@)
                },
                Err(e) => {
                    &&& parsed_len(inp@) > effective_max_frame(max_frame_size)
                    &&& e.code == H2Code::FrameSizeError
                },
            },
    {
        proof {
            lemma_parse_arith(inp[0], inp[1], inp[2], inp[5], inp[6], inp[7], inp[8]);
        }
        let len = ((inp[0] as u32) << 16) | ((inp[1] as u32) << 8) | (inp[2] as u32);
        let cap = if max_frame_size < MAX_FRAME_LEN_FIELD {
            max_frame_size
        } else {
            MAX_FRAME_LEN_FIELD
        };
        if len > cap {
            return Err(
                H2Error::new(H2Code::FrameSizeError, "frame payload exceeds peer max_frame_size"),
            );
        }
        let ty = FrameType::from_u8(inp[3]);
        let flags = inp[4];
        let sid = (((inp[5] as u32) << 24) | ((inp[6] as u32) << 16) | ((inp[7] as u32) << 8) | (
        inp[8] as u32)) & 0x7fff_ffff;
        Ok(FrameHeader { len, ty, flags, stream_id: sid })
    }
}

/// A header is representable when its length fits the 24-bit field, its stream
/// id fits 31 bits and its type is canonical.
pub open spec fn header_representable(h: FrameHeader) -> bool {
    &&& h.len < 0x100_0000
    &&& h.stream_id < 0x8000_0000
    &&& frame_type_canonical(h.ty)
}

/// Writing a representable header and parsing the bytes back gives the same
/// header, as long as its length is within the limit the parser enforces.
pub proof fn lemma_header_roundtrip(h: FrameHeader, max_frame_size: u32)
    requires
        header_representable(h),
        h.len <= effective_max_frame(max_frame_size),
    ensures
        parsed_len(header_bytes(h)) == h.len,
        parsed_stream_id(header_bytes(h)) == h.stream_id,
        frame_type_of_byte(header_bytes(h)[3]) == h.ty,
        header_bytes(h)[4] == h.flags,
{
    let b = header_bytes(h);
    let len = h.len as int;
    let sid = h.stream_id as int;
    assert(len % 0x100_0000 == len);
    assert(sid % 0x8000_0000 == sid);
    assert(b[0] as int * 0x1_0000 + b[1] as int * 0x100 + b[2] as int == len);
    assert(b[5] as int % 0x80 == b[5] as int);
    assert((b[5] as int % 0x80) * 0x100_0000 + b[6] as int * 0x1_0000 + b[7] as int * 0x100
        + b[8] as int == sid);
}

} // verus!
