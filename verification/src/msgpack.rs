//! Minimal MessagePack codec (the subset the gossip bus needs).
use vstd::prelude::*;
use vstd::utf8::*;

verus! {

/// Codec error.
#[derive(Debug, Clone, Copy, PartialEq, Eq)]
pub enum MsgPackError {
    /// Unexpected end of input.
    Eof,
    /// Type mismatch: the marker byte found where another type was expected.
    InvalidType { expected: &'static str, got: u8 },
    /// Malformed or semantically invalid input.
    InvalidData(&'static str),
    /// The bytes of a string are not UTF-8.
    Utf8,
}

/// Result type for codec operations.
pub type MsgPackResult<T> = Result<T, MsgPackError>;

// ---------------------------------------------------------------- encodings

/// Big-endian bytes of `v` over `n` bytes.
pub open spec fn be_bytes(v: int, n: nat) -> Seq<u8>
    decreases n,
{
    if n == 0 {
        Seq::empty()
    } else {
        be_bytes(v / 256, (n - 1) as nat).push((v % 256) as u8)
    }
}

/// The value of big-endian bytes.
pub open spec fn be_value(b: Seq<u8>) -> int
    decreases b.len(),
{
    if b.len() == 0 {
        0
    } else {
        be_value(b.drop_last()) * 256 + b.last() as int
    }
}

/// Encoding of an unsigned integer in its shortest form.
pub open spec fn enc_u64(v: u64) -> Seq<u8> {
    if v <= 0x7f {
        seq![v as u8]
    } else if v <= 0xff {
        seq![0xccu8, v as u8]
    } else if v <= 0xffff {
        seq![0xcdu8] + be_bytes(v as int, 2)
    } else if v <= 0xffff_ffff {
        seq![0xceu8] + be_bytes(v as int, 4)
    } else {
        seq![0xcfu8] + be_bytes(v as int, 8)
    }
}

/// Length header of a container whose fix-form marker is `fix` and whose
/// 16/32-bit markers are `m16`/`m32` (lengths above 32 bits are truncated).
pub open spec fn enc_container_len(fix: u8, m16: u8, m32: u8, len: nat) -> Seq<u8> {
    if len <= 15 {
        seq![(fix + len) as u8]
    } else if len <= 0xffff {
        seq![m16] + be_bytes(len as int, 2)
    } else {
        seq![m32] + be_bytes(len as int % 0x1_0000_0000, 4)
    }
}

pub open spec fn enc_array_len(len: nat) -> Seq<u8> {
    enc_container_len(0x90, 0xdc, 0xdd, len)
}

pub open spec fn enc_map_len(len: nat) -> Seq<u8> {
    enc_container_len(0x80, 0xde, 0xdf, len)
}

/// Header of a string of `len` bytes.
pub open spec fn enc_str_header(len: nat) -> Seq<u8> {
    if len <= 31 {
        seq![(0xa0 + len) as u8]
    } else if len <= 0xff {
        seq![0xd9u8, len as u8]
    } else if len <= 0xffff {
        seq![0xdau8] + be_bytes(len as int, 2)
    } else {
        seq![0xdbu8] + be_bytes(len as int % 0x1_0000_0000, 4)
    }
}

/// Header of a binary blob of `len` bytes.
pub open spec fn enc_bin_header(len: nat) -> Seq<u8> {
    if len <= 0xff {
        seq![0xc4u8, len as u8]
    } else if len <= 0xffff {
        seq![0xc5u8] + be_bytes(len as int, 2)
    } else {
        seq![0xc6u8] + be_bytes(len as int % 0x1_0000_0000, 4)
    }
}

/// Encoding of a string: header and UTF-8 bytes.
pub open spec fn enc_str(s: Seq<char>) -> Seq<u8> {
    enc_str_header(encode_utf8(s).len()) + encode_utf8(s)
}

/// Encoding of a binary blob: header and bytes.
pub open spec fn enc_bin(b: Seq<u8>) -> Seq<u8> {
    enc_bin_header(b.len()) + b
}

// ---------------------------------------------------------------- decodings
// Each decoder takes the unread input and gives the outcome and the number of
// bytes the decoder advanced over (also on error).

/// Reads `n` big-endian bytes after `skip` marker bytes.
pub open spec fn dec_be(s: Seq<u8>, skip: int, n: int) -> (Result<int, MsgPackError>, int) {
    if s.len() - skip < n {
        (Err(MsgPackError::Eof), skip)
    } else {
        (Ok(be_value(s.subrange(skip, skip + n))), skip + n)
    }
}

pub open spec fn dec_nil(s: Seq<u8>) -> (Result<(), MsgPackError>, int) {
    if s.len() == 0 {
        (Err(MsgPackError::Eof), 0)
    } else if s[0] == 0xc0 {
        (Ok(()), 1)
    } else {
        (Err(MsgPackError::InvalidType { expected: "nil", got: s[0] }), 1)
    }
}

pub open spec fn dec_u64(s: Seq<u8>) -> (Result<u64, MsgPackError>, int) {
    if s.len() == 0 {
        (Err(MsgPackError::Eof), 0)
    } else if s[0] <= 0x7f {
        (Ok(s[0] as u64), 1)
    } else if s[0] == 0xcc {
        if s.len() < 2 {
            (Err(MsgPackError::Eof), 1)
        } else {
            (Ok(s[1] as u64), 2)
        }
    } else if s[0] == 0xcd || s[0] == 0xce || s[0] == 0xcf {
        let n: int = if s[0] == 0xcd {
            2
        } else if s[0] == 0xce {
            4
        } else {
            8
        };
        let (r, k) = dec_be(s, 1, n);
        match r {
            Ok(v) => (Ok(v as u64), k),
            Err(e) => (Err(e), k),
        }
    } else {
        (Err(MsgPackError::InvalidType { expected: "u64", got: s[0] }), 1)
    }
}

/// Decoding of a container length with fix-form marker `fix` (upper nibble),
/// 16/32-bit markers `m16`/`m32`; `name` is the expected type's name.
pub open spec fn dec_container_len(
    s: Seq<u8>,
    fix: u8,
    m16: u8,
    m32: u8,
    name: &'static str,
) -> (Result<usize, MsgPackError>, int) {
    if s.len() == 0 {
        (Err(MsgPackError::Eof), 0)
    } else if s[0] / 16 == fix / 16 {
        (Ok((s[0] % 16) as usize), 1)
    } else if s[0] == m16 || s[0] == m32 {
        let (r, k) = dec_be(
            s,
            1,
            if s[0] == m16 {
                2
            } else {
                4
            },
        );
        match r {
            Ok(v) => (Ok(v as usize), k),
            Err(e) => (Err(e), k),
        }
    } else {
        (Err(MsgPackError::InvalidType { expected: name, got: s[0] }), 1)
    }
}

pub open spec fn dec_array_len(s: Seq<u8>) -> (Result<usize, MsgPackError>, int) {
    dec_container_len(s, 0x90, 0xdc, 0xdd, "array")
}

pub open spec fn dec_map_len(s: Seq<u8>) -> (Result<usize, MsgPackError>, int) {
    dec_container_len(s, 0x80, 0xde, 0xdf, "map")
}

/// Decoding of a string header: the announced length and bytes advanced.
pub open spec fn dec_str_header(s: Seq<u8>) -> (Result<int, MsgPackError>, int) {
    if s.len() == 0 {
        (Err(MsgPackError::Eof), 0)
    } else if s[0] / 32 == 5 {
        (Ok((s[0] % 32) as int), 1)
    } else if s[0] == 0xd9 {
        dec_be(s, 1, 1)
    } else if s[0] == 0xda {
        dec_be(s, 1, 2)
    } else if s[0] == 0xdb {
        dec_be(s, 1, 4)
    } else {
        (Err(MsgPackError::InvalidType { expected: "str", got: s[0] }), 1)
    }
}

/// Decoding of a binary header: the announced length and bytes advanced.
pub open spec fn dec_bin_header(s: Seq<u8>) -> (Result<int, MsgPackError>, int) {
    if s.len() == 0 {
        (Err(MsgPackError::Eof), 0)
    } else if s[0] == 0xc4 {
        dec_be(s, 1, 1)
    } else if s[0] == 0xc5 {
        dec_be(s, 1, 2)
    } else if s[0] == 0xc6 {
        dec_be(s, 1, 4)
    } else {
        (Err(MsgPackError::InvalidType { expected: "bin", got: s[0] }), 1)
    }
}

/// Decoding of a body of the announced length after a header.
pub open spec fn dec_body(s: Seq<u8>, h: (Result<int, MsgPackError>, int)) -> (Result<
    Seq<u8>,
    MsgPackError,
>, int) {
    match h.0 {
        Err(e) => (Err(e), h.1),
        Ok(len) => if s.len() - h.1 < len {
            (Err(MsgPackError::Eof), h.1)
        } else {
            (Ok(s.subrange(h.1, h.1 + len)), h.1 + len)
        },
    }
}

pub open spec fn dec_str(s: Seq<u8>) -> (Result<Seq<char>, MsgPackError>, int) {
    let (r, k) = dec_body(s, dec_str_header(s));
    match r {
        Err(e) => (Err(e), k),
        Ok(b) => if valid_utf8(b) {
            (Ok(decode_utf8(b)), k)
        } else {
            (Err(MsgPackError::Utf8), k)
        },
    }
}

pub open spec fn dec_bin(s: Seq<u8>) -> (Result<Seq<u8>, MsgPackError>, int) {
    dec_body(s, dec_bin_header(s))
}

// ---------------------------------------------------------------- helpers

proof fn lemma_be_bytes_len(v: int, n: nat)
    ensures
        be_bytes(v, n).len() == n,
    decreases n,
{
    if n > 0 {
        lemma_be_bytes_len(v / 256, (n - 1) as nat);
    }
}

proof fn lemma_be_roundtrip(v: int, n: nat)
    requires
        0 <= v,
    ensures
        be_value(be_bytes(v, n)) == v % vstd::arithmetic::power::pow(256, n),
    decreases n,
{
    vstd::arithmetic::power::lemma_pow0(256);
    if n > 0 {
        lemma_be_roundtrip(v / 256, (n - 1) as nat);
        lemma_be_bytes_len(v / 256, (n - 1) as nat);
        let b = be_bytes(v, n);
        assert(b.drop_last() =~= be_bytes(v / 256, (n - 1) as nat));
        let p = vstd::arithmetic::power::pow(256, (n - 1) as nat);
        vstd::arithmetic::power::lemma_pow_positive(256, (n - 1) as nat);
        vstd::arithmetic::power::lemma_pow1(256);
        vstd::arithmetic::power::lemma_pow_adds(256, (n - 1) as nat, 1);
        assert(vstd::arithmetic::power::pow(256, n) == p * 256);
        vstd::arithmetic::div_mod::lemma_breakdown(v, 256, p);
        assert(v % (256 * p) == 256 * ((v / 256) % p) + v % 256);
        assert(p * 256 == 256 * p) by (nonlinear_arith);
    }
}

fn push_be(buf: &mut Vec<u8>, v: u64, n: usize)
    requires
        n == 2 || n == 4 || n == 8,
    ensures
        final(buf)@ == old(buf)@ + be_bytes(v as int, n as nat),
    decreases n,
{
    if n == 2 {
        proof {
            assert((v >> 8) as u8 == ((v as int / 256) % 256) as u8) by (bit_vector);
            assert(v as u8 == (v as int % 256) as u8) by (bit_vector);
            reveal_with_fuel(be_bytes, 3);
            assert(((v as int / 256) / 256) == v as int / 65536);
        }
        buf.push((v >> 8) as u8);
        buf.push(v as u8);
        assert(buf@ =~= old(buf)@ + be_bytes(v as int, n as nat));
    } else if n == 4 {
        push_be(buf, v >> 16, 2);
        let ghost mid = buf@;
        push_be(buf, v & 0xffff, 2);
        proof {
            lemma_be_split(v, 2, 2);
        }
        assert(buf@ =~= old(buf)@ + be_bytes(v as int, n as nat));
    } else {
        push_be(buf, v >> 32, 4);
        push_be(buf, v & 0xffff_ffff, 4);
        proof {
            lemma_be_split(v, 4, 4);
        }
        assert(buf@ =~= old(buf)@ + be_bytes(v as int, n as nat));
    }
}

/// Splitting a big-endian encoding into a high and a low part.
proof fn lemma_be_split(v: u64, hi: nat, lo: nat)
    requires
        lo == 2 || lo == 4,
        hi == lo,
    ensures
        be_bytes(v as int, hi + lo) == be_bytes(
            (if lo == 2 {
                v >> 16
            } else {
                v >> 32
            }) as int,
            hi,
        ) + be_bytes(
            (if lo == 2 {
                v & 0xffff
            } else {
                v & 0xffff_ffff
            }) as int,
            lo,
        ),
{
    reveal_with_fuel(vstd::arithmetic::power::pow, 5);
    if lo == 2 {
        assert((v >> 16) as int == v as int / 65536) by (bit_vector);
        assert((v & 0xffff) as int == v as int % 65536) by (bit_vector);
        lemma_be_concat(v as int, 2, 2);
    } else {
        assert((v >> 32) as int == v as int / 0x1_0000_0000) by (bit_vector);
        assert((v & 0xffff_ffff) as int == v as int % 0x1_0000_0000) by (bit_vector);
        lemma_be_concat(v as int, 4, 4);
    }
}

proof fn lemma_be_mod(v: int, n: nat, m: int)
    requires
        0 <= v,
        m > 0,
        vstd::arithmetic::power::pow(256, n) * (m / vstd::arithmetic::power::pow(256, n)) == m,
        vstd::arithmetic::power::pow(256, n) <= m,
    ensures
        be_bytes(v % m, n) == be_bytes(v, n),
    decreases n,
{
    if n > 0 {
        let p = vstd::arithmetic::power::pow(256, (n - 1) as nat);
        vstd::arithmetic::power::lemma_pow_positive(256, (n - 1) as nat);
        vstd::arithmetic::power::lemma_pow1(256);
        vstd::arithmetic::power::lemma_pow_adds(256, (n - 1) as nat, 1);
        let q = m / (p * 256);
        assert(m == (p * 256) * q);
        assert(m == 256 * (p * q)) by (nonlinear_arith)
            requires
                m == (p * 256) * q,
        ;
        vstd::arithmetic::div_mod::lemma_mod_mod(v, 256, p * q);
        assert((v % m) % 256 == v % 256) by {
            vstd::arithmetic::div_mod::lemma_mod_mod(v, 256, p * q);
        }
        assert((v % m) / 256 == (v / 256) % (p * q)) by {
            vstd::arithmetic::div_mod::lemma_breakdown(v, 256, p * q);
            vstd::arithmetic::div_mod::lemma_fundamental_div_mod(v % m, 256);
            vstd::arithmetic::div_mod::lemma_mod_bound(v, m);
            vstd::arithmetic::div_mod::lemma_mod_pos_bound((v / 256), p * q);
            vstd::arithmetic::div_mod::lemma_div_pos_is_pos(v, 256);
            assert(v % m == 256 * ((v / 256) % (p * q)) + v % 256);
            vstd::arithmetic::div_mod::lemma_fundamental_div_mod_converse(
                v % m,
                256,
                (v / 256) % (p * q),
                v % 256,
            );
        }
        vstd::arithmetic::div_mod::lemma_div_pos_is_pos(v, 256);
        assert(p * ((p * q) / p) == p * q) by {
            vstd::arithmetic::div_mod::lemma_div_multiples_vanish(q, p);
        }
        assert(p <= p * q) by (nonlinear_arith)
            requires
                p > 0,
                p * 256 <= m,
                m == (p * 256) * q,
        ;
        lemma_be_mod(v / 256, (n - 1) as nat, p * q);
    }
}

proof fn lemma_be_concat(v: int, hi: nat, lo: nat)
    requires
        0 <= v,
    ensures
        be_bytes(v, hi + lo) == be_bytes(v / vstd::arithmetic::power::pow(256, lo), hi)
            + be_bytes(v % vstd::arithmetic::power::pow(256, lo), lo),
    decreases lo,
{
    vstd::arithmetic::power::lemma_pow0(256);
    if lo == 0 {
        assert(be_bytes(v % 1, 0) =~= Seq::<u8>::empty());
        assert(be_bytes(v, hi) + Seq::<u8>::empty() =~= be_bytes(v, hi));
    } else {
        let p = vstd::arithmetic::power::pow(256, (lo - 1) as nat);
        vstd::arithmetic::power::lemma_pow_positive(256, (lo - 1) as nat);
        vstd::arithmetic::power::lemma_pow1(256);
        vstd::arithmetic::power::lemma_pow_adds(256, (lo - 1) as nat, 1);
        assert(vstd::arithmetic::power::pow(256, lo) == p * 256);
        lemma_be_concat(v / 256, hi, (lo - 1) as nat);
        vstd::arithmetic::div_mod::lemma_div_denominator(v, 256, p);
        assert(p * 256 == 256 * p) by (nonlinear_arith);
        vstd::arithmetic::div_mod::lemma_div_pos_is_pos(v, 256);
        let m = p * 256;
        vstd::arithmetic::div_mod::lemma_mod_pos_bound(v, m);
        // low part: be_bytes(v % m, lo) == be_bytes(v, lo) restricted
        lemma_be_mod(v, lo, m);
        vstd::arithmetic::div_mod::lemma_mod_mod(v, 256, p);
        assert(be_bytes(v, lo) == be_bytes(v / 256, (lo - 1) as nat).push((v % 256) as u8));
        assert(be_bytes(v / 256, (lo - 1) as nat) == be_bytes((v / 256) % p, (lo - 1) as nat)) by {
            vstd::arithmetic::power::lemma_pow_positive(256, (lo - 1) as nat);
            vstd::arithmetic::div_mod::lemma_div_multiples_vanish(1, p);
            lemma_be_mod(v / 256, (lo - 1) as nat, p);
        }
        let hi_part = be_bytes(v / m, hi);
        assert(be_bytes(v, hi + lo) == be_bytes(v / 256, (hi + lo - 1) as nat).push(
            (v % 256) as u8,
        ));
        assert(be_bytes(v / 256, (hi + lo - 1) as nat) == be_bytes((v / 256) / p, hi) + be_bytes(
            (v / 256) % p,
            (lo - 1) as nat,
        ));
        assert(be_bytes(v, hi + lo) =~= hi_part + be_bytes(v % m, lo));
    }
}

/// Reads `n` big-endian bytes of `b` starting at `at`.
fn read_be(b: &[u8], at: usize, n: usize) -> (r: u64)
    requires
        n <= 8,
        at + n <= b@.len(),
    ensures
        r as int == be_value(b@.subrange(at as int, at + n)),
    decreases n,
{
    if n == 0 {
        assert(b@.subrange(at as int, at as int).len() == 0);
        0
    } else {
        let hi = read_be(b, at, n - 1);
        proof {
            let s = b@.subrange(at as int, at + n);
            assert(s.drop_last() =~= b@.subrange(at as int, at + n - 1));
            lemma_be_value_bound(b@.subrange(at as int, at + n - 1));
            vstd::arithmetic::power::lemma_pow_increases(256, (n - 1) as nat, 7);
            assert(vstd::arithmetic::power::pow(256, 7) == 0x100_0000_0000_0000) by {
                reveal_with_fuel(vstd::arithmetic::power::pow, 8);
            }
            assert(hi < 0x100_0000_0000_0000);
            assert(hi * 256 <= 0xffff_ffff_ffff_ff00) by (nonlinear_arith)
                requires
                    hi < 0x100_0000_0000_0000,
            ;
        }
        let _blen = b.len();
        let last = b[at + (n - 1)] as u64;
        let shifted = hi * 256;
        shifted + last
    }
}

proof fn lemma_be_value_bound(b: Seq<u8>)
    ensures
        0 <= be_value(b) < vstd::arithmetic::power::pow(256, b.len()),
    decreases b.len(),
{
    vstd::arithmetic::power::lemma_pow0(256);
    if b.len() > 0 {
        lemma_be_value_bound(b.drop_last());
        vstd::arithmetic::power::lemma_pow1(256);
        vstd::arithmetic::power::lemma_pow_adds(256, (b.len() - 1) as nat, 1);
        let p = vstd::arithmetic::power::pow(256, (b.len() - 1) as nat);
        assert(be_value(b.drop_last()) * 256 + (b.last() as int) < p * 256) by (nonlinear_arith)
            requires
                0 <= be_value(b.drop_last()) < p,
                0 <= b.last() < 256,
        ;
    }
}

// ---------------------------------------------------------------- encoder

/// MessagePack encoder writing into an owned buffer.
#[derive(Debug, Default)]
pub struct Encoder {
    buf: Vec<u8>,
}

impl View for Encoder {
    type V = Seq<u8>;

    closed spec fn view(&self) -> Seq<u8> {
        self.buf@
    }
}

impl Encoder {
    pub fn with_capacity(cap: usize) -> (r: Encoder)
        ensures
            r@ == Seq::<u8>::empty(),
    {
        Encoder { buf: Vec::with_capacity(cap) }
    }

    /// The bytes written so far.
    pub fn into_inner(self) -> (r: Vec<u8>)
        ensures
            r@ == self@,
    {
        self.buf
    }

    pub fn write_nil(&mut self)
        ensures
            final(self)@ == old(self)@.push(0xc0),
    {
        self.buf.push(0xc0);
    }

    pub fn write_u64(&mut self, v: u64)
        ensures
            final(self)@ == old(self)@ + enc_u64(v),
    {
        if v <= 0x7f {
            self.buf.push(v as u8);
        } else if v <= 0xff {
            self.buf.push(0xcc);
            self.buf.push(v as u8);
        } else if v <= 0xffff {
            self.buf.push(0xcd);
            push_be(&mut self.buf, v, 2);
        } else if v <= 0xffff_ffff {
            self.buf.push(0xce);
            push_be(&mut self.buf, v, 4);
        } else {
            self.buf.push(0xcf);
            push_be(&mut self.buf, v, 8);
        }
        assert(self@ =~= old(self)@ + enc_u64(v));
    }

    fn write_len_header(&mut self, fix: u8, m16: u8, m32: u8, len: usize)
        requires
            fix == 0x90 || fix == 0x80,
        ensures
            final(self)@ == old(self)@ + enc_container_len(fix, m16, m32, len as nat),
    {
        if len <= 15 {
            self.buf.push(fix | (len as u8));
            proof {
                let l = len as u8;
                assert(fix == 0x90 || fix == 0x80 ==> (fix | l) == fix + l) by (bit_vector)
                    requires
                        l <= 15,
                ;
            }
        } else if len <= 0xffff {
            self.buf.push(m16);
            push_be(&mut self.buf, len as u64, 2);
        } else {
            self.buf.push(m32);
            let l32 = len as u32;
            assert((len as u32) as int == (len as int) % 0x1_0000_0000) by (bit_vector);
            push_be(&mut self.buf, l32 as u64, 4);
        }
        assert(self@ =~= old(self)@ + enc_container_len(fix, m16, m32, len as nat));
    }

    pub fn write_array_len(&mut self, len: usize)
        ensures
            final(self)@ == old(self)@ + enc_array_len(len as nat),
    {
        self.write_len_header(0x90, 0xdc, 0xdd, len);
    }

    pub fn write_map_len(&mut self, len: usize)
        ensures
            final(self)@ == old(self)@ + enc_map_len(len as nat),
    {
        self.write_len_header(0x80, 0xde, 0xdf, len);
    }

    pub fn write_str(&mut self, s: &str)
        ensures
            final(self)@ == old(self)@ + enc_str(s@),
    {
        let bytes = s.as_bytes();
        let len = bytes.len();
        if len <= 31 {
            self.buf.push(0xa0 | (len as u8));
            proof {
                let l = len as u8;
                assert((0xa0u8 | l) == 0xa0u8 + l) by (bit_vector)
                    requires
                        l <= 31,
                ;
            }
        } else if len <= 0xff {
            self.buf.push(0xd9);
            self.buf.push(len as u8);
        } else if len <= 0xffff {
            self.buf.push(0xda);
            push_be(&mut self.buf, len as u64, 2);
        } else {
            self.buf.push(0xdb);
            let l32 = len as u32;
            assert((len as u32) as int == (len as int) % 0x1_0000_0000) by (bit_vector);
            push_be(&mut self.buf, l32 as u64, 4);
        }
        let ghost mid = self.buf@;
        assert(mid =~= old(self)@ + enc_str_header(len as nat));
        self.buf.extend_from_slice(bytes);
        assert(self@ =~= old(self)@ + enc_str(s@));
    }

    pub fn write_bin(&mut self, b: &[u8])
        ensures
            final(self)@ == old(self)@ + enc_bin(b@),
    {
        let len = b.len();
        if len <= 0xff {
            self.buf.push(0xc4);
            self.buf.push(len as u8);
        } else if len <= 0xffff {
            self.buf.push(0xc5);
            push_be(&mut self.buf, len as u64, 2);
        } else {
            self.buf.push(0xc6);
            let l32 = len as u32;
            assert((len as u32) as int == (len as int) % 0x1_0000_0000) by (bit_vector);
            push_be(&mut self.buf, l32 as u64, 4);
        }
        let ghost mid = self.buf@;
        assert(mid =~= old(self)@ + enc_bin_header(len as nat));
        self.buf.extend_from_slice(b);
        assert(self@ =~= old(self)@ + enc_bin(b@));
    }
}

// ---------------------------------------------------------------- decoder

/// MessagePack decoder over a borrowed input.
#[derive(Debug)]
pub struct Decoder<'a> {
    input: &'a [u8],
    pos: usize,
}

impl<'a> Decoder<'a> {
    #[verifier::type_invariant]
    spec fn inv(self) -> bool {
        self.pos <= self.input@.len()
    }

    /// The whole input.
    pub closed spec fn input(self) -> Seq<u8> {
        self.input@
    }

    /// How many bytes have been read.
    pub closed spec fn pos(self) -> int {
        self.pos as int
    }

    /// The unread input.
    pub open spec fn rest(self) -> Seq<u8> {
        self.input().subrange(self.pos(), self.input().len() as int)
    }

    pub fn new(input: &'a [u8]) -> (r: Decoder<'a>)
        ensures
            r.input() == input@,
            r.pos() == 0,
    {
        Decoder { input, pos: 0 }
    }

    pub fn remaining(&self) -> (r: usize)
        ensures
            r == self.input().len() - self.pos(),
            0 <= self.pos() <= self.input().len(),
    {
        proof {
            use_type_invariant(self);
        }
        self.input.len() - self.pos
    }

    pub fn peek_u8(&self) -> (r: MsgPackResult<u8>)
        ensures
            match r {
                Ok(b) => self.rest().len() > 0 && b == self.rest()[0],
                Err(e) => self.rest().len() == 0 && e == MsgPackError::Eof,
            },
    {
        proof {
            use_type_invariant(self);
        }
        if self.pos < self.input.len() {
            Ok(self.input[self.pos])
        } else {
            Err(MsgPackError::Eof)
        }
    }

    /// Advances over `k` bytes.
    spec fn advanced(self, old: Self, k: int) -> bool {
        &&& self.input@ == old.input@
        &&& self.pos == old.pos + k
    }

    /// Reads one byte.
    pub fn read_u8(&mut self) -> (r: MsgPackResult<u8>)
        ensures
            final(self).input() == old(self).input(),
            0 <= old(self).pos() <= old(self).input().len(),
            0 <= final(self).pos() <= final(self).input().len(),
            match r {
                Ok(b) => old(self).rest().len() > 0 && b == old(self).rest()[0] && final(self).pos()
                    == old(self).pos() + 1,
                Err(e) => old(self).rest().len() == 0 && e == MsgPackError::Eof && final(self).pos()
                    == old(self).pos(),
            },
    {
        proof {
            use_type_invariant(&*self);
        }
        if self.pos < self.input.len() {
            let b = self.input[self.pos];
            self.pos = self.pos + 1;
            Ok(b)
        } else {
            Err(MsgPackError::Eof)
        }
    }

    /// Reads one byte.
    pub fn read_exact(&mut self, n: usize) -> (r: MsgPackResult<&'a [u8]>)
        ensures
            final(self).input() == old(self).input(),
            0 <= old(self).pos() <= old(self).input().len(),
            0 <= final(self).pos() <= final(self).input().len(),
            match r {
                Ok(b) => old(self).rest().len() >= n && b@ == old(self).rest().subrange(0, n as int)
                    && final(self).pos() == old(self).pos() + n,
                Err(e) => old(self).rest().len() < n && e == MsgPackError::Eof && final(self).pos()
                    == old(self).pos(),
            },
    {
        proof {
            use_type_invariant(&*self);
        }
        if self.input.len() - self.pos < n {
            return Err(MsgPackError::Eof);
        }
        let start = self.pos;
        self.pos = self.pos + n;
        let out = &self.input[start..start + n];
        assert(out@ =~= old(self).rest().subrange(0, n as int));
        Ok(out)
    }

    /// Reads `n` big-endian bytes (`n` <= 8) as an integer.
    fn read_be_n(&mut self, n: usize) -> (r: MsgPackResult<u64>)
        requires
            n <= 8,
        ensures
            final(self).input() == old(self).input(),
            match r {
                Ok(v) => old(self).rest().len() >= n && v as int == be_value(
                    old(self).rest().subrange(0, n as int),
                ) && final(self).pos() == old(self).pos() + n,
                Err(e) => old(self).rest().len() < n && e == MsgPackError::Eof && final(self).pos()
                    == old(self).pos(),
            },
    {
        let v = self.read_exact(n)?;
        assert(v@.subrange(0, n as int) =~= v@);
        Ok(read_be(v, 0, n))
    }

    pub fn read_nil(&mut self) -> (r: MsgPackResult<()>)
        ensures
            final(self).input() == old(self).input(),
            (r, final(self).pos() - old(self).pos()) == dec_nil(old(self).rest()),
    {
        proof {
            use_type_invariant(&*self);
        }
        let b = self.read_u8()?;
        if b == 0xc0 {
            Ok(())
        } else {
            Err(MsgPackError::InvalidType { expected: "nil", got: b })
        }
    }

    pub fn read_u64(&mut self) -> (r: MsgPackResult<u64>)
        ensures
            final(self).input() == old(self).input(),
            (r, final(self).pos() - old(self).pos()) == dec_u64(old(self).rest()),
    {
        proof {
            use_type_invariant(&*self);
        }
        let ghost s = old(self).rest();
        let b = self.read_u8()?;
        if b <= 0x7f {
            return Ok(b as u64);
        }
        let ghost s1 = self.rest();
        assert(s1 =~= s.subrange(1, s.len() as int));
        if b == 0xcc {
            let x = self.read_u8()?;
            Ok(x as u64)
        } else if b == 0xcd || b == 0xce || b == 0xcf {
            let n: usize = if b == 0xcd {
                2
            } else if b == 0xce {
                4
            } else {
                8
            };
            let v = self.read_be_n(n)?;
            assert(s1.subrange(0, n as int) =~= s.subrange(1, 1 + n));
            Ok(v)
        } else {
            Err(MsgPackError::InvalidType { expected: "u64", got: b })
        }
    }

    fn read_container_len(
        &mut self,
        fix: u8,
        m16: u8,
        m32: u8,
        name: &'static str,
    ) -> (r: MsgPackResult<usize>)
        requires
            fix == 0x90 || fix == 0x80,
        ensures
            final(self).input() == old(self).input(),
            (r, final(self).pos() - old(self).pos()) == dec_container_len(
                old(self).rest(),
                fix,
                m16,
                m32,
                name,
            ),
    {
        proof {
            use_type_invariant(&*self);
        }
        let ghost s = old(self).rest();
        let b = self.read_u8()?;
        proof {
            assert((b & 0xf0) == fix <==> b / 16 == fix / 16) by (bit_vector)
                requires
                    fix == 0x90 || fix == 0x80,
            ;
            assert((b & 0x0f) == b % 16) by (bit_vector);
        }
        if (b & 0xf0) == fix {
            return Ok((b & 0x0f) as usize);
        }
        let ghost s1 = self.rest();
        assert(s1 =~= s.subrange(1, s.len() as int));
        if b == m16 || b == m32 {
            let n: usize = if b == m16 {
                2
            } else {
                4
            };
            let v = self.read_be_n(n)?;
            assert(s1.subrange(0, n as int) =~= s.subrange(1, 1 + n));
            proof {
                lemma_be_value_bound(s.subrange(1, 1 + n));
                vstd::arithmetic::power::lemma_pow_increases(256, n as nat, 4);
                assert(vstd::arithmetic::power::pow(256, 4) == 0x1_0000_0000) by {
                    reveal_with_fuel(vstd::arithmetic::power::pow, 5);
                }
            }
            Ok(v as usize)
        } else {
            Err(MsgPackError::InvalidType { expected: name, got: b })
        }
    }

    pub fn read_array_len(&mut self) -> (r: MsgPackResult<usize>)
        ensures
            final(self).input() == old(self).input(),
            (r, final(self).pos() - old(self).pos()) == dec_array_len(old(self).rest()),
    {
        self.read_container_len(0x90, 0xdc, 0xdd, "array")
    }

    pub fn read_map_len(&mut self) -> (r: MsgPackResult<usize>)
        ensures
            final(self).input() == old(self).input(),
            (r, final(self).pos() - old(self).pos()) == dec_map_len(old(self).rest()),
    {
        self.read_container_len(0x80, 0xde, 0xdf, "map")
    }

    fn read_str_header(&mut self) -> (r: MsgPackResult<usize>)
        ensures
            final(self).input() == old(self).input(),
            ({
                let (h, k) = dec_str_header(old(self).rest());
                &&& final(self).pos() - old(self).pos() == k
                &&& match r {
                    Ok(len) => h == Ok::<int, MsgPackError>(len as int),
                    Err(e) => h == Err::<int, MsgPackError>(e),
                }
            }),
    {
        proof {
            use_type_invariant(&*self);
        }
        let ghost s = old(self).rest();
        let b = self.read_u8()?;
        proof {
            assert((b & 0xe0) == 0xa0 <==> b / 32 == 5) by (bit_vector);
            assert((b & 0x1f) == b % 32) by (bit_vector);
        }
        if (b & 0xe0) == 0xa0 {
            return Ok((b & 0x1f) as usize);
        }
        let ghost s1 = self.rest();
        assert(s1 =~= s.subrange(1, s.len() as int));
        if b == 0xd9 || b == 0xda || b == 0xdb {
            let n: usize = if b == 0xd9 {
                1
            } else if b == 0xda {
                2
            } else {
                4
            };
            let v = self.read_be_n(n)?;
            assert(s1.subrange(0, n as int) =~= s.subrange(1, 1 + n));
            proof {
                lemma_be_value_bound(s.subrange(1, 1 + n));
                vstd::arithmetic::power::lemma_pow_increases(256, n as nat, 4);
                assert(vstd::arithmetic::power::pow(256, 4) == 0x1_0000_0000) by {
                    reveal_with_fuel(vstd::arithmetic::power::pow, 5);
                }
            }
            Ok(v as usize)
        } else {
            Err(MsgPackError::InvalidType { expected: "str", got: b })
        }
    }

    fn read_bin_header(&mut self) -> (r: MsgPackResult<usize>)
        ensures
            final(self).input() == old(self).input(),
            ({
                let (h, k) = dec_bin_header(old(self).rest());
                &&& final(self).pos() - old(self).pos() == k
                &&& match r {
                    Ok(len) => h == Ok::<int, MsgPackError>(len as int),
                    Err(e) => h == Err::<int, MsgPackError>(e),
                }
            }),
    {
        proof {
            use_type_invariant(&*self);
        }
        let ghost s = old(self).rest();
        let b = self.read_u8()?;
        let ghost s1 = self.rest();
        assert(s1 =~= s.subrange(1, s.len() as int));
        if b == 0xc4 || b == 0xc5 || b == 0xc6 {
            let n: usize = if b == 0xc4 {
                1
            } else if b == 0xc5 {
                2
            } else {
                4
            };
            let v = self.read_be_n(n)?;
            assert(s1.subrange(0, n as int) =~= s.subrange(1, 1 + n));
            proof {
                lemma_be_value_bound(s.subrange(1, 1 + n));
                vstd::arithmetic::power::lemma_pow_increases(256, n as nat, 4);
                assert(vstd::arithmetic::power::pow(256, 4) == 0x1_0000_0000) by {
                    reveal_with_fuel(vstd::arithmetic::power::pow, 5);
                }
            }
            Ok(v as usize)
        } else {
            Err(MsgPackError::InvalidType { expected: "bin", got: b })
        }
    }

    pub fn read_str(&mut self) -> (r: MsgPackResult<String>)
        ensures
            final(self).input() == old(self).input(),
            ({
                let (d, k) = dec_str(old(self).rest());
                &&& final(self).pos() - old(self).pos() == k
                &&& match r {
                    Ok(st) => d == Ok::<Seq<char>, MsgPackError>(st@),
                    Err(e) => d == Err::<Seq<char>, MsgPackError>(e),
                }
            }),
    {
        proof {
            use_type_invariant(&*self);
        }
        let ghost s = old(self).rest();
        let len = self.read_str_header()?;
        let ghost k = self.pos() - old(self).pos();
        let ghost s1 = self.rest();
        assert(s1 =~= s.subrange(k, s.len() as int));
        let bytes = self.read_exact(len)?;
        assert(bytes@ =~= s.subrange(k, k + len));
        match utf8_str(bytes) {
            Some(t) => Ok(t.to_owned()),
            None => Err(MsgPackError::Utf8),
        }
    }

    pub fn read_bin(&mut self) -> (r: MsgPackResult<Vec<u8>>)
        ensures
            final(self).input() == old(self).input(),
            ({
                let (d, k) = dec_bin(old(self).rest());
                &&& final(self).pos() - old(self).pos() == k
                &&& match r {
                    Ok(v) => d == Ok::<Seq<u8>, MsgPackError>(v@),
                    Err(e) => d == Err::<Seq<u8>, MsgPackError>(e),
                }
            }),
    {
        proof {
            use_type_invariant(&*self);
        }
        let ghost s = old(self).rest();
        let len = self.read_bin_header()?;
        let ghost k = self.pos() - old(self).pos();
        let ghost s1 = self.rest();
        assert(s1 =~= s.subrange(k, s.len() as int));
        let bytes = self.read_exact(len)?;
        assert(bytes@ =~= s.subrange(k, k + len));
        Ok(vstd::slice::slice_to_vec(bytes))
    }
}

/// Interprets bytes as UTF-8 text.
///
/// Calls `std::str::from_utf8`; its documentation promises success exactly on
/// well-formed UTF-8 and gives the decoded text back. The contract claims
/// exactly that, with the well-formedness and decoding of vstd's `utf8` module.
#[verifier::external_body]
fn utf8_str(b: &[u8]) -> (r: Option<&str>)
    ensures
        r is Some <==> valid_utf8(b@),
        r matches Some(t) ==> t@ == decode_utf8(b@),
{
    std::str::from_utf8(b).ok()
}


// ---------------------------------------------------------------- laws

proof fn lemma_pow256()
    ensures
        vstd::arithmetic::power::pow(256, 1) == 0x100,
        vstd::arithmetic::power::pow(256, 2) == 0x1_0000,
        vstd::arithmetic::power::pow(256, 4) == 0x1_0000_0000,
        vstd::arithmetic::power::pow(256, 8) == 0x1_0000_0000_0000_0000,
{
    reveal_with_fuel(vstd::arithmetic::power::pow, 9);
}

proof fn lemma_be_read_back(v: int, n: nat, rest: Seq<u8>, skip: Seq<u8>)
    requires
        0 <= v,
        n == 1 || n == 2 || n == 4 || n == 8,
    ensures
        ({
            let s = skip + be_bytes(v, n) + rest;
            dec_be(s, skip.len() as int, n as int) == (
                Ok::<int, MsgPackError>(v % vstd::arithmetic::power::pow(256, n)),
                (skip.len() + n) as int,
            )
        }),
{
    let s = skip + be_bytes(v, n) + rest;
    lemma_be_bytes_len(v, n);
    lemma_be_roundtrip(v, n);
    assert(s.subrange(skip.len() as int, (skip.len() + n) as int) =~= be_bytes(v, n));
}

/// Reading an unsigned integer back from its encoding gives the integer and
/// consumes exactly the encoding.
pub proof fn lemma_u64_roundtrip(v: u64, rest: Seq<u8>)
    ensures
        dec_u64(enc_u64(v) + rest) == (Ok::<u64, MsgPackError>(v), enc_u64(v).len() as int),
{
    lemma_pow256();
    let s = enc_u64(v) + rest;
    if v <= 0x7f {
    } else if v <= 0xff {
    } else if v <= 0xffff {
        lemma_be_read_back(v as int, 2, rest, seq![0xcdu8]);
        assert(s =~= seq![0xcdu8] + be_bytes(v as int, 2) + rest);
        lemma_be_bytes_len(v as int, 2);
    } else if v <= 0xffff_ffff {
        lemma_be_read_back(v as int, 4, rest, seq![0xceu8]);
        assert(s =~= seq![0xceu8] + be_bytes(v as int, 4) + rest);
        lemma_be_bytes_len(v as int, 4);
    } else {
        lemma_be_read_back(v as int, 8, rest, seq![0xcfu8]);
        assert(s =~= seq![0xcfu8] + be_bytes(v as int, 8) + rest);
        lemma_be_bytes_len(v as int, 8);
    }
}

/// Reading nil back from its encoding.
pub proof fn lemma_nil_roundtrip(rest: Seq<u8>)
    ensures
        dec_nil(seq![0xc0u8] + rest) == (Ok::<(), MsgPackError>(()), 1int),
{
}

proof fn lemma_container_roundtrip(fix: u8, m16: u8, m32: u8, name: &'static str, len: nat, rest: Seq<u8>)
    requires
        fix == 0x90 || fix == 0x80,
        m16 == fix + 0x4c || m16 == fix + 0x5e,
        m32 == m16 + 1,
        len <= 0xffff_ffff,
    ensures
        dec_container_len(enc_container_len(fix, m16, m32, len) + rest, fix, m16, m32, name) == (
            Ok::<usize, MsgPackError>(len as usize),
            enc_container_len(fix, m16, m32, len).len() as int,
        ),
{
    lemma_pow256();
    let s = enc_container_len(fix, m16, m32, len) + rest;
    if len <= 15 {
        assert(s[0] == (fix + len) as u8);
    } else if len <= 0xffff {
        lemma_be_read_back(len as int, 2, rest, seq![m16]);
        assert(s =~= seq![m16] + be_bytes(len as int, 2) + rest);
        lemma_be_bytes_len(len as int, 2);
    } else {
        lemma_be_read_back(len as int, 4, rest, seq![m32]);
        assert(len as int % 0x1_0000_0000 == len);
        assert(s =~= seq![m32] + be_bytes(len as int, 4) + rest);
        lemma_be_bytes_len(len as int, 4);
    }
}

/// Reading an array length back from its encoding (lengths up to 2^32 - 1).
pub proof fn lemma_array_len_roundtrip(len: nat, rest: Seq<u8>)
    requires
        len <= 0xffff_ffff,
    ensures
        dec_array_len(enc_array_len(len) + rest) == (
            Ok::<usize, MsgPackError>(len as usize),
            enc_array_len(len).len() as int,
        ),
{
    lemma_container_roundtrip(0x90, 0xdc, 0xdd, "array", len, rest);
}

/// Reading a map length back from its encoding (lengths up to 2^32 - 1).
pub proof fn lemma_map_len_roundtrip(len: nat, rest: Seq<u8>)
    requires
        len <= 0xffff_ffff,
    ensures
        dec_map_len(enc_map_len(len) + rest) == (
            Ok::<usize, MsgPackError>(len as usize),
            enc_map_len(len).len() as int,
        ),
{
    lemma_container_roundtrip(0x80, 0xde, 0xdf, "map", len, rest);
}

proof fn lemma_str_header_roundtrip(len: nat, rest: Seq<u8>)
    requires
        len <= 0xffff_ffff,
    ensures
        dec_str_header(enc_str_header(len) + rest) == (
            Ok::<int, MsgPackError>(len as int),
            enc_str_header(len).len() as int,
        ),
{
    lemma_pow256();
    let s = enc_str_header(len) + rest;
    if len <= 31 {
        assert(s[0] == (0xa0 + len) as u8);
    } else if len <= 0xff {
        reveal_with_fuel(be_value, 2);
        assert(s.subrange(1, 2) =~= seq![len as u8]);
    } else if len <= 0xffff {
        lemma_be_read_back(len as int, 2, rest, seq![0xdau8]);
        assert(s =~= seq![0xdau8] + be_bytes(len as int, 2) + rest);
        lemma_be_bytes_len(len as int, 2);
    } else {
        lemma_be_read_back(len as int, 4, rest, seq![0xdbu8]);
        assert(len as int % 0x1_0000_0000 == len);
        assert(s =~= seq![0xdbu8] + be_bytes(len as int, 4) + rest);
        lemma_be_bytes_len(len as int, 4);
    }
}

proof fn lemma_bin_header_roundtrip(len: nat, rest: Seq<u8>)
    requires
        len <= 0xffff_ffff,
    ensures
        dec_bin_header(enc_bin_header(len) + rest) == (
            Ok::<int, MsgPackError>(len as int),
            enc_bin_header(len).len() as int,
        ),
{
    lemma_pow256();
    let s = enc_bin_header(len) + rest;
    if len <= 0xff {
        reveal_with_fuel(be_value, 2);
        assert(s.subrange(1, 2) =~= seq![len as u8]);
    } else if len <= 0xffff {
        lemma_be_read_back(len as int, 2, rest, seq![0xc5u8]);
        assert(s =~= seq![0xc5u8] + be_bytes(len as int, 2) + rest);
        lemma_be_bytes_len(len as int, 2);
    } else {
        lemma_be_read_back(len as int, 4, rest, seq![0xc6u8]);
        assert(len as int % 0x1_0000_0000 == len);
        assert(s =~= seq![0xc6u8] + be_bytes(len as int, 4) + rest);
        lemma_be_bytes_len(len as int, 4);
    }
}

/// Reading a string back from its encoding gives the string (strings whose
/// UTF-8 form is shorter than 2^32 bytes).
pub proof fn lemma_str_roundtrip(st: Seq<char>, rest: Seq<u8>)
    requires
        encode_utf8(st).len() <= 0xffff_ffff,
    ensures
        dec_str(enc_str(st) + rest) == (Ok::<Seq<char>, MsgPackError>(st), enc_str(st).len() as int),
{
    let b = encode_utf8(st);
    let h = enc_str_header(b.len());
    lemma_str_header_roundtrip(b.len(), b + rest);
    assert(enc_str(st) + rest =~= h + (b + rest));
    assert((h + (b + rest)).subrange(h.len() as int, (h.len() + b.len()) as int) =~= b);
    encode_utf8_valid_utf8(st);
    encode_utf8_decode_utf8(st);
}

/// Reading a binary blob back from its encoding (blobs shorter than 2^32 bytes).
pub proof fn lemma_bin_roundtrip(b: Seq<u8>, rest: Seq<u8>)
    requires
        b.len() <= 0xffff_ffff,
    ensures
        dec_bin(enc_bin(b) + rest) == (Ok::<Seq<u8>, MsgPackError>(b), enc_bin(b).len() as int),
{
    let h = enc_bin_header(b.len());
    lemma_bin_header_roundtrip(b.len(), b + rest);
    assert(enc_bin(b) + rest =~= h + (b + rest));
    assert((h + (b + rest)).subrange(h.len() as int, (h.len() + b.len()) as int) =~= b);
}

} // verus!
