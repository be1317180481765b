use vstd::prelude::*;

verus! {

/// `uuid::Uuid::new_v4`: sixteen random bytes from the operating system's
/// generator, with the version nibble set to 4 and the variant bits to
/// `10` (RFC 9562). The uuid crate panics when the operating system gives
/// no random bytes; nothing else is promised of the bytes.
#[verifier::external_body]
fn random_uuid_bytes() -> (r: [u8; 16])
    ensures
        r@[6] >> 4u8 == 4u8,
        r@[8] >> 6u8 == 2u8,
{
    *uuid::Uuid::new_v4().as_bytes()
}

/// W3C trace context of a request.
#[derive(Clone, Copy, Debug)]
pub struct TraceContext {
    pub trace_id: [u8; 16],
    pub span_id: [u8; 8],
    pub flags: u8,
}

/// Lower-case hex digit of `n` (below 16).
pub open spec fn hex_digit(n: u8) -> char {
    if n < 10 { (0x30 + n) as char } else { (0x61 + n - 10) as char }
}

/// Two lower-case hex digits per byte.
pub open spec fn hex_chars(b: Seq<u8>) -> Seq<char>
    decreases b.len(),
{
    if b.len() == 0 {
        Seq::empty()
    } else {
        hex_chars(b.drop_last()) + seq![hex_digit(b.last() >> 4u8), hex_digit(b.last() & 0x0Fu8)]
    }
}

pub(crate) fn hex_digit_str(n: u8) -> (r: &'static str)
    requires
        n < 16,
    ensures
        r@ == seq![hex_digit(n)],
{
    proof {
        reveal_strlit("0");
        reveal_strlit("1");
        reveal_strlit("2");
        reveal_strlit("3");
        reveal_strlit("4");
        reveal_strlit("5");
        reveal_strlit("6");
        reveal_strlit("7");
        reveal_strlit("8");
        reveal_strlit("9");
        reveal_strlit("a");
        reveal_strlit("b");
        reveal_strlit("c");
        reveal_strlit("d");
        reveal_strlit("e");
        reveal_strlit("f");
    }
    if n == 0 { "0" }
    else if n == 1 { "1" }
    else if n == 2 { "2" }
    else if n == 3 { "3" }
    else if n == 4 { "4" }
    else if n == 5 { "5" }
    else if n == 6 { "6" }
    else if n == 7 { "7" }
    else if n == 8 { "8" }
    else if n == 9 { "9" }
    else if n == 10 { "a" }
    else if n == 11 { "b" }
    else if n == 12 { "c" }
    else if n == 13 { "d" }
    else if n == 14 { "e" }
    else { "f" }
}

fn append_hex(s: &mut String, b: &[u8])
    ensures
        final(s)@ == old(s)@ + hex_chars(b@),
{
    let mut i: usize = 0;
    while i < b.len()
        invariant
            i <= b@.len(),
            s@ == old(s)@ + hex_chars(b@.take(i as int)),
        decreases b@.len() - i,
    {
        let x = b[i];
        proof {
            assert(x >> 4u8 < 16) by (bit_vector);
            assert(x & 0x0Fu8 < 16) by (bit_vector);
        }
        s.append(hex_digit_str(x >> 4u8));
        s.append(hex_digit_str(x & 0x0Fu8));
        proof {
            let t = b@.take(i as int + 1);
            assert(t.drop_last() =~= b@.take(i as int));
            assert(t.last() == x);
        }
        i = i + 1;
    }
    proof {
        assert(b@.take(b@.len() as int) =~= b@);
    }
}

/// Hex of a 16-byte id.
pub fn hex16(b: [u8; 16]) -> (r: String)
    ensures
        r@ == hex_chars(b@),
{
    let mut s = String::new();
    append_hex(&mut s, b.as_slice());
    s
}

/// Hex of an 8-byte id.
pub fn hex8(b: [u8; 8]) -> (r: String)
    ensures
        r@ == hex_chars(b@),
{
    let mut s = String::new();
    append_hex(&mut s, b.as_slice());
    s
}

impl TraceContext {
    /// A root context from sixteen bytes: the trace id is the bytes, the
    /// span id their first eight, sampled.
    pub fn from_uuid_bytes(u: [u8; 16]) -> (r: Self)
        ensures
            r.trace_id@ == u@,
            r.span_id@ == u@.take(8),
            r.flags == 1,
    {
        let mut span_id: [u8; 8] = [0u8; 8];
        let mut i: usize = 0;
        while i < 8
            invariant
                i <= 8,
                span_id@.len() == 8,
                forall|j: int| 0 <= j < i ==> span_id@[j] == u@[j],
            decreases 8 - i,
        {
            span_id.set(i, u[i]);
            i = i + 1;
        }
        proof {
            assert(span_id@ =~= u@.take(8));
        }
        TraceContext { trace_id: u, span_id, flags: 1 }
    }

    /// A new root context with a random (version 4 UUID) trace id.
    pub fn new() -> (r: Self)
        ensures
            r.trace_id@[6] >> 4u8 == 4u8,
            r.trace_id@[8] >> 6u8 == 2u8,
            r.span_id@ == r.trace_id@.take(8),
            r.flags == 1,
    {
        Self::from_uuid_bytes(random_uuid_bytes())
    }

    /// The `traceparent` header value: `00-<trace id>-<span id>-<flags>`,
    /// in lower-case hex.
    pub fn traceparent(&self) -> (r: String)
        ensures
            r@ == "00-"@ + hex_chars(self.trace_id@) + "-"@ + hex_chars(self.span_id@) + "-"@ + hex_chars(
                seq![self.flags],
            ),
    {
        let mut s = String::from_str("00-");
        s.append(hex16(self.trace_id).as_str());
        s.append("-");
        s.append(hex8(self.span_id).as_str());
        s.append("-");
        let f: [u8; 1] = [self.flags];
        append_hex(&mut s, f.as_slice());
        proof {
            assert(f@ =~= seq![self.flags]);
        }
        s
    }
}

} // verus!
