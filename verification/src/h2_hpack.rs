use vstd::prelude::*;
use crate::h2_error::{H2Code, H2Error};

verus! {

/// One decoded header field.
#[derive(Clone, Debug, PartialEq, Eq)]
pub struct Header {
    pub name: Vec<u8>,
    pub value: Vec<u8>,
}

/// Limits on a decoded header block.
#[derive(Clone, Copy, Debug, PartialEq, Eq, Structural)]
pub struct HeaderBlockLimits {
    pub max_headers: usize,
    pub max_header_block_bytes: usize,
}

impl Default for HeaderBlockLimits {
    /// 256 headers and 64 KiB per block.
    fn default() -> (r: Self)
        ensures
            r.max_headers == 256,
            r.max_header_block_bytes == 65536,
    {
        HeaderBlockLimits { max_headers: 256, max_header_block_bytes: 65536 }
    }
}

// ------------------------------------------------------------ block structure

/// The multiplier of the `k`-th continuation byte of an HPACK integer.
pub open spec fn cont_weight(k: nat) -> nat {
    if k == 0 {
        1
    } else if k == 1 {
        128
    } else if k == 2 {
        16384
    } else {
        2097152
    }
}

/// The continuation bytes of an HPACK integer from position `q` (the `k`-th
/// continuation byte), `acc` read so far: the value and the number of bytes
/// the whole integer takes, or `None` when the bytes run out or a fifth byte
/// would be needed.
pub open spec fn int_rest(b: Seq<u8>, q: int, k: nat, acc: nat) -> Option<(nat, nat)>
    decreases 4 - k,
{
    if k >= 4 || q < 0 || q >= b.len() {
        None
    } else {
        let v = acc + (b[q] % 128) as nat * cont_weight(k);
        if b[q] < 128 {
            Some((v, k + 2))
        } else if k + 2 >= 5 {
            None
        } else {
            int_rest(b, q + 1, k + 1, v)
        }
    }
}

/// The HPACK integer at `p` with a prefix of `mask` (2^n - 1) bits: value and
/// length in bytes.
pub open spec fn hpack_int(b: Seq<u8>, p: int, mask: nat) -> Option<(nat, nat)> {
    if p < 0 || p >= b.len() {
        None
    } else {
        let v = (b[p] as nat) % (mask + 1);
        if v < mask {
            Some((v, 1))
        } else {
            int_rest(b, p + 1, 0, v)
        }
    }
}

/// The length in bytes of the HPACK string at `p`, when it fits in `b`.
pub open spec fn hpack_str(b: Seq<u8>, p: int) -> Option<nat> {
    match hpack_int(b, p, 127) {
        Some((len, c)) => if p + c + len <= b.len() {
            Some(c + len)
        } else {
            None
        },
        None => None,
    }
}

/// Where the literal field at `p` (prefix `mask`) ends, when it is whole.
pub open spec fn literal_end(b: Seq<u8>, p: int, mask: nat) -> Option<int> {
    match hpack_int(b, p, mask) {
        Some((idx, c)) => {
            let q = p + c;
            let q2 = if idx == 0 {
                match hpack_str(b, q) {
                    Some(n) => Some(q + n),
                    None => None,
                }
            } else {
                Some(q)
            };
            match q2 {
                Some(r) => match hpack_str(b, r) {
                    Some(n) => Some(r + n),
                    None => None,
                },
                None => None,
            }
        },
        None => None,
    }
}

/// Where the field starting at `p` ends, when it parses.
pub open spec fn field_next(b: Seq<u8>, p: int) -> Option<int> {
    let o = b[p];
    if o >= 128 {
        match hpack_int(b, p, 127) {
            Some((_, c)) => Some(p + c),
            None => None,
        }
    } else if o >= 64 {
        literal_end(b, p, 63)
    } else if o >= 32 {
        match hpack_int(b, p, 31) {
            Some((_, c)) => Some(p + c),
            None => None,
        }
    } else {
        literal_end(b, p, 15)
    }
}

/// Walking the fields of a header block from `p` the way the decoder does,
/// every dynamic table size update met before the walk stops carries a
/// whole integer.  The walk stops at the end of the block or at a field that
/// does not parse (where decoding fails with an error).
pub open spec fn size_updates_whole(b: Seq<u8>, p: int) -> bool
    decreases b.len() - p,
{
    if p < 0 || p >= b.len() {
        true
    } else {
        match field_next(b, p) {
            Some(q) => if p < q && q <= b.len() {
                size_updates_whole(b, q)
            } else {
                true
            },
            None => !(32 <= b[p] < 64),
        }
    }
}

/// Reads the HPACK integer at `p`.
fn read_int(b: &[u8], p: usize, mask: u8) -> (r: Option<(u64, usize)>)
    requires
        mask == 127 || mask == 63 || mask == 31 || mask == 15,
    ensures
        match hpack_int(b@, p as int, mask as nat) {
            Some((v, c)) => r == Some((v as u64, c as usize)) && 1 <= c <= 5 && v < 0x4000_0000 && p
                + c <= b.len(),
            None => r is None,
        },
{
    if p >= b.len() {
        return None;
    }
    let first = b[p] % (mask + 1);
    if first < mask {
        return Some((first as u64, 1));
    }
    let rem = b.len() - p;
    let mut acc: u64 = first as u64;
    let mut k: usize = 0;
    let mut weight: u64 = 1;
    while k < 4
        invariant
            k <= 4,
            p < b.len(),
            rem == b.len() - p,
            weight == cont_weight(k as nat),
            acc < 128 * weight,
            hpack_int(b@, p as int, mask as nat) == int_rest(b@, p + 1 + k, k as nat, acc as nat),
        decreases 4 - k,
    {
        if 1 + k >= rem {
            return None;
        }
        let q = p + 1 + k;
        let byte = b[q];
        let add = (byte % 128) as u64;
        assert(add * weight <= 127 * weight) by (nonlinear_arith)
            requires
                add <= 127,
        ;
        acc = acc + add * weight;
        if byte < 128 {
            assert(int_rest(b@, p + 1 + k, k as nat, (acc - add * weight) as nat) == Some(
                (acc as nat, (k + 2) as nat),
            ));
            return Some((acc, k + 2));
        }
        if k + 2 >= 5 {
            return None;
        }
        k = k + 1;
        weight = weight * 128;
    }
    None
}

/// The length of the HPACK string at `p`, when it fits in `b`.
fn read_str(b: &[u8], p: usize) -> (r: Option<usize>)
    ensures
        match hpack_str(b@, p as int) {
            Some(n) => r == Some(n as usize) && p + n <= b.len() && n >= 1,
            None => r is None,
        },
{
    match read_int(b, p, 127) {
        Some((len, c)) => {
            if p >= b.len() {
                return None;
            }
            let room = b.len() - p;
            if c > room || len > (room - c) as u64 {
                None
            } else {
                Some(c + len as usize)
            }
        },
        None => None,
    }
}

/// Where the literal field at `p` ends, when it is whole.
fn read_literal(b: &[u8], p: usize, mask: u8) -> (r: Option<usize>)
    requires
        mask == 63 || mask == 15,
    ensures
        match literal_end(b@, p as int, mask as nat) {
            Some(e) => r == Some(e as usize) && p < e <= b.len(),
            None => r is None,
        },
{
    match read_int(b, p, mask) {
        Some((idx, c)) => {
            let q = p + c;
            let name_end = if idx == 0 {
                match read_str(b, q) {
                    Some(n) => Some(q + n),
                    None => None,
                }
            } else {
                if q > b.len() {
                    return None;
                }
                Some(q)
            };
            match name_end {
                Some(r) => match read_str(b, r) {
                    Some(n) => Some(r + n),
                    None => None,
                },
                None => None,
            }
        },
        None => None,
    }
}

/// Where the field at `p` ends, when it parses.
fn next_field(block: &[u8], p: usize) -> (r: Option<usize>)
    requires
        p < block.len(),
    ensures
        match field_next(block@, p as int) {
            Some(q) => r == Some(q as usize) && p < q <= block.len(),
            None => r is None,
        },
{
    let o = block[p];
    if o >= 128 {
        match read_int(block, p, 127) {
            Some((_, c)) => Some(p + c),
            None => None,
        }
    } else if o >= 64 {
        read_literal(block, p, 63)
    } else if o >= 32 {
        match read_int(block, p, 31) {
            Some((_, c)) => Some(p + c),
            None => None,
        }
    } else {
        read_literal(block, p, 15)
    }
}

/// Whether every size update in `block` carries a whole integer, by the walk
/// of [`size_updates_whole`].
pub fn size_updates_are_whole(block: &[u8]) -> (r: bool)
    ensures
        r == size_updates_whole(block@, 0),
{
    let mut p: usize = 0;
    while p < block.len()
        invariant
            p <= block.len(),
            size_updates_whole(block@, 0) == size_updates_whole(block@, p as int),
        decreases block.len() - p,
    {
        match next_field(block, p) {
            Some(q) => {
                p = q;
            },
            None => {
                let o = block[p];
                return !(32 <= o && o < 64);
            },
        }
    }
    true
}

// ------------------------------------------------------------ coder state

/// The encoder of the `hpack` crate.  Its type shares its name with this
/// crate's msgpack `Encoder`, which rules out declaring it directly; it is
/// held here, opaque.
#[verifier::external_body]
struct EncoderState {
    inner: hpack::Encoder<'static>,
}

/// The decoder of the `hpack` crate, held opaque for the same reason.
#[verifier::external_body]
struct DecoderState {
    inner: hpack::Decoder<'static>,
}

/// `hpack::Encoder::new`: an encoder with an empty dynamic table.
#[verifier::external_body]
fn new_encoder_state() -> EncoderState {
    EncoderState { inner: hpack::Encoder::new() }
}

/// `hpack::Decoder::new`: a decoder with an empty dynamic table.
#[verifier::external_body]
fn new_decoder_state() -> DecoderState {
    DecoderState { inner: hpack::Decoder::new() }
}

/// `hpack::Encoder::encode` over the headers' names and values.  What it
/// writes depends on the encoder's dynamic table, so nothing is stated of
/// the bytes; it writes into a `Vec`, which cannot fail.
#[verifier::external_body]
fn encode_with(enc: &mut EncoderState, headers: &[Header]) -> Vec<u8> {
    enc.inner.encode(headers.iter().map(|h| (h.name.as_slice(), h.value.as_slice())))
}

/// `hpack::Decoder::decode`, its error rendered as text.  What it returns
/// depends on the decoder's dynamic table, so nothing is stated of it.  The
/// decoder panics on a dynamic table size update whose integer is cut short
/// (`update_max_dynamic_size` unwraps the integer), hence the requirement.
#[verifier::external_body]
fn decode_with(dec: &mut DecoderState, block: &[u8]) -> Result<Vec<(Vec<u8>, Vec<u8>)>, String>
    requires
        size_updates_whole(block@, 0),
{
    match dec.inner.decode(block) {
        Ok(list) => Ok(list),
        Err(e) => Err(format!("{e:?}")),
    }
}

/// HPACK encoder for the headers this side sends.
pub struct HpackEncoder {
    inner: EncoderState,
}

impl Default for HpackEncoder {
    /// An encoder with an empty dynamic table.
    fn default() -> Self {
        HpackEncoder { inner: new_encoder_state() }
    }
}

impl HpackEncoder {
    /// Encodes a header list as one header block.
    pub fn encode_headers(&mut self, headers: &[Header]) -> Vec<u8> {
        encode_with(&mut self.inner, headers)
    }
}

/// HPACK decoder for the header blocks the peer sends, with limits.
pub struct HpackDecoder {
    inner: DecoderState,
    limits: HeaderBlockLimits,
}

/// The message of a failed decode.
pub open spec fn decode_failure_message(detail: Seq<char>) -> Seq<char> {
    "hpack decode failed: "@ + detail
}

/// The headers of a decoded list, as `Header`s.
pub open spec fn as_headers(list: Seq<(Vec<u8>, Vec<u8>)>) -> Seq<(Seq<u8>, Seq<u8>)> {
    list.map_values(|p: (Vec<u8>, Vec<u8>)| (p.0@, p.1@))
}

pub open spec fn header_pairs(hs: Seq<Header>) -> Seq<(Seq<u8>, Seq<u8>)> {
    hs.map_values(|h: Header| (h.name@, h.value@))
}

/// Checks what the decoder gave back against the limits: a decoder failure
/// is a compression error, more than `max_headers` headers a protocol error;
/// otherwise the headers, in order.
/// `r` is what a decoded block (or the decoder's error) comes to under
/// `limits`: a decoder error is a compression error, more headers than the
/// limit a protocol error, and otherwise the headers in order.
pub open spec fn finished_as(
    limits: HeaderBlockLimits,
    decoded: Result<Vec<(Vec<u8>, Vec<u8>)>, String>,
    r: Result<Vec<Header>, H2Error>,
) -> bool {
    match decoded {
            Err(detail) => r matches Err(e) && e.code == H2Code::CompressionError
                && e.message@ == decode_failure_message(detail@),
            Ok(list) => if list.len() > limits.max_headers {
                r matches Err(e) && e.code == H2Code::ProtocolError
                    && e.message@ == "too many headers in block"@
            } else {
                r matches Ok(hs) && header_pairs(hs@) == as_headers(list@) && hs.len() == list.len()
            },
        }
}

pub fn finish_decoded(
    limits: HeaderBlockLimits,
    decoded: Result<Vec<(Vec<u8>, Vec<u8>)>, String>,
) -> (r: Result<Vec<Header>, H2Error>)
    ensures
        finished_as(limits, decoded, r),
        match decoded {
            Err(detail) => r matches Err(e) && e.code == H2Code::CompressionError
                && e.message@ == decode_failure_message(detail@),
            Ok(list) => if list.len() > limits.max_headers {
                r matches Err(e) && e.code == H2Code::ProtocolError
                    && e.message@ == "too many headers in block"@
            } else {
                r matches Ok(hs) && header_pairs(hs@) == as_headers(list@) && hs.len() == list.len()
            },
        },
{
    match decoded {
        Err(detail) => {
            let mut msg = String::from_str("hpack decode failed: ");
            msg.append(detail.as_str());
            Err(H2Error { code: H2Code::CompressionError, message: msg })
        },
        Ok(list) => {
            if list.len() > limits.max_headers {
                return Err(H2Error::new(H2Code::ProtocolError, "too many headers in block"));
            }
            let mut out: Vec<Header> = Vec::new();
            let mut list = list;
            let ghost all = as_headers(list@);
            let n = list.len();
            let mut i: usize = 0;
            let mut rev: Vec<Header> = Vec::new();
            while list.len() > 0
                invariant
                    list.len() + rev.len() == n,
                    n == all.len(),
                    as_headers(list@) == all.take(list.len() as int),
                    forall|j: int| 0 <= j < rev.len() ==> (#[trigger] rev@[j].name@, rev@[j].value@)
                        == all[n - 1 - j],
                decreases list.len(),
            {
                let ghost before = list@;
                let (name, value) = list.pop().unwrap();
                proof {
                    assert(list@ == before.drop_last());
                    assert(as_headers(list@) =~= all.take(list.len() as int));
                    assert(as_headers(before)[list.len() as int] == (name@, value@));
                    assert(all.take(before.len() as int)[list.len() as int] == all[list.len() as int]);
                }
                let ghost rb = rev@;
                rev.push(Header { name, value });
                proof {
                    assert forall|j: int| 0 <= j < rev.len() implies (#[trigger] rev@[j].name@, rev@[j].value@)
                        == all[n - 1 - j] by {
                        if j < rb.len() {
                            assert(rev@[j] == rb[j]);
                        }
                    }
                }
            }
            while rev.len() > 0
                invariant
                    rev.len() + out.len() == n,
                    n == all.len(),
                    forall|j: int| 0 <= j < rev.len() ==> (#[trigger] rev@[j].name@, rev@[j].value@)
                        == all[n - 1 - j],
                    header_pairs(out@) == all.take(out.len() as int),
                decreases rev.len(),
            {
                let ghost rb = rev@;
                let h = rev.pop().unwrap();
                proof {
                    assert(rev@ == rb.drop_last());
                    assert((h.name@, h.value@) == all[n - 1 - (rb.len() - 1)]);
                    assert forall|j: int| 0 <= j < rev.len() implies (#[trigger] rev@[j].name@, rev@[j].value@)
                        == all[n - 1 - j] by {
                        assert(rev@[j] == rb[j]);
                    }
                    assert(all.take(out.len() + 1) =~= all.take(out.len() as int).push((h.name@, h.value@)));
                }
                out.push(h);
                proof {
                    assert(header_pairs(out@) =~= all.take(out.len() as int));
                }
            }
            proof {
                assert(all.take(n as int) =~= all);
            }
            Ok(out)
        },
    }
}

impl HpackDecoder {
    /// A decoder with an empty dynamic table enforcing `limits`.
    pub fn new(limits: HeaderBlockLimits) -> (r: Self)
        ensures
            r.limits() == limits,
    {
        HpackDecoder { inner: new_decoder_state(), limits }
    }

    pub closed spec fn limits(&self) -> HeaderBlockLimits {
        self.limits
    }

    /// Decodes one header block.  A block over the byte limit is a frame
    /// size error, and one whose size updates are cut short a compression
    /// error, both before any decoding; what the decoder gives back is then
    /// checked by [`finish_decoded`].
    pub fn decode(&mut self, block: &[u8]) -> (r: Result<Vec<Header>, H2Error>)
        ensures
            final(self).limits() == old(self).limits(),
            block.len() > old(self).limits().max_header_block_bytes ==> (r matches Err(e) && e.code
                == H2Code::FrameSizeError && e.message@ == "header block too large"@),
            block.len() <= old(self).limits().max_header_block_bytes && !size_updates_whole(block@, 0)
                ==> (r matches Err(e) && e.code == H2Code::CompressionError),
            r matches Ok(hs) ==> hs.len() <= old(self).limits().max_headers,
            block.len() <= old(self).limits().max_header_block_bytes && size_updates_whole(block@, 0)
                ==> exists|d: Result<Vec<(Vec<u8>, Vec<u8>)>, String>| #[trigger] finished_as(old(self).limits(), d, r),
    {
        if block.len() > self.limits.max_header_block_bytes {
            return Err(H2Error::new(H2Code::FrameSizeError, "header block too large"));
        }
        if !size_updates_are_whole(block) {
            return Err(H2Error::new(
                H2Code::CompressionError,
                "hpack decode failed: size update cut short",
            ));
        }
        let decoded = decode_with(&mut self.inner, block);
        finish_decoded(self.limits, decoded)
    }
}

} // verus!
