use vstd::prelude::*;

verus! {

/// HTTP/2 error codes (RFC 7540 section 7).
#[derive(Clone, Copy, Debug, PartialEq, Eq)]
pub enum H2Code {
    NoError,
    ProtocolError,
    InternalError,
    FlowControlError,
    SettingsTimeout,
    StreamClosed,
    FrameSizeError,
    RefusedStream,
    Cancel,
    CompressionError,
    ConnectError,
    EnhanceYourCalm,
    InadequateSecurity,
    Http11Required,
}

/// The wire value of each error code.
pub open spec fn code_value(c: H2Code) -> u32 {
    match c {
        H2Code::NoError => 0x0,
        H2Code::ProtocolError => 0x1,
        H2Code::InternalError => 0x2,
        H2Code::FlowControlError => 0x3,
        H2Code::SettingsTimeout => 0x4,
        H2Code::StreamClosed => 0x5,
        H2Code::FrameSizeError => 0x6,
        H2Code::RefusedStream => 0x7,
        H2Code::Cancel => 0x8,
        H2Code::CompressionError => 0x9,
        H2Code::ConnectError => 0xa,
        H2Code::EnhanceYourCalm => 0xb,
        H2Code::InadequateSecurity => 0xc,
        H2Code::Http11Required => 0xd,
    }
}

/// Decoding of a wire value: known codes map to themselves, every other value
/// is treated as an internal error.
pub open spec fn code_of_value(v: u32) -> H2Code {
    if v == 0x0 {
        H2Code::NoError
    } else if v == 0x1 {
        H2Code::ProtocolError
    } else if v == 0x2 {
        H2Code::InternalError
    } else if v == 0x3 {
        H2Code::FlowControlError
    } else if v == 0x4 {
        H2Code::SettingsTimeout
    } else if v == 0x5 {
        H2Code::StreamClosed
    } else if v == 0x6 {
        H2Code::FrameSizeError
    } else if v == 0x7 {
        H2Code::RefusedStream
    } else if v == 0x8 {
        H2Code::Cancel
    } else if v == 0x9 {
        H2Code::CompressionError
    } else if v == 0xa {
        H2Code::ConnectError
    } else if v == 0xb {
        H2Code::EnhanceYourCalm
    } else if v == 0xc {
        H2Code::InadequateSecurity
    } else if v == 0xd {
        H2Code::Http11Required
    } else {
        H2Code::InternalError
    }
}

impl H2Code {
    pub fn as_u32(self) -> (r: u32)
        ensures
            r == code_value(self),
    {
        match self {
            H2Code::NoError => 0x0,
            H2Code::ProtocolError => 0x1,
            H2Code::InternalError => 0x2,
            H2Code::FlowControlError => 0x3,
            H2Code::SettingsTimeout => 0x4,
            H2Code::StreamClosed => 0x5,
            H2Code::FrameSizeError => 0x6,
            H2Code::RefusedStream => 0x7,
            H2Code::Cancel => 0x8,
            H2Code::CompressionError => 0x9,
            H2Code::ConnectError => 0xa,
            H2Code::EnhanceYourCalm => 0xb,
            H2Code::InadequateSecurity => 0xc,
            H2Code::Http11Required => 0xd,
        }
    }

    pub fn from_u32(v: u32) -> (r: H2Code)
        ensures
            r == code_of_value(v),
    {
        match v {
            0x0 => H2Code::NoError,
            0x1 => H2Code::ProtocolError,
            0x2 => H2Code::InternalError,
            0x3 => H2Code::FlowControlError,
            0x4 => H2Code::SettingsTimeout,
            0x5 => H2Code::StreamClosed,
            0x6 => H2Code::FrameSizeError,
            0x7 => H2Code::RefusedStream,
            0x8 => H2Code::Cancel,
            0x9 => H2Code::CompressionError,
            0xa => H2Code::ConnectError,
            0xb => H2Code::EnhanceYourCalm,
            0xc => H2Code::InadequateSecurity,
            0xd => H2Code::Http11Required,
            _ => H2Code::InternalError,
        }
    }
}

/// Every error code survives a round trip through its wire value.
pub proof fn lemma_code_roundtrip(c: H2Code)
    ensures
        code_of_value(code_value(c)) == c,
{
}

/// Decoding a value and encoding it again gives the value back exactly when the
/// value is a known code (0 through 13).
pub proof fn lemma_value_roundtrip(v: u32)
    ensures
        (code_value(code_of_value(v)) == v) <==> v <= 0xd,
{
}

/// An HTTP/2 error: a code and a human readable message.
#[derive(Clone, Debug)]
pub struct H2Error {
    pub code: H2Code,
    pub message: String,
}

impl H2Error {
    pub fn new(code: H2Code, message: &str) -> (r: H2Error)
        ensures
            r.code == code,
            r.message@ == message@,
    {
        H2Error { code, message: message.to_owned() }
    }

    /// The text the error displays as: `h2 <code>: <message>`.
    pub fn describe(&self) -> (r: String)
        ensures
            r@ == seq!['h', '2', ' '] + code_name(self.code)@ + seq![':', ' '] + self.message@,
    {
        let mut s = String::from_str("h2 ");
        s.append(code_name_str(self.code));
        s.append(": ");
        s.append(self.message.as_str());
        proof {
            reveal_strlit("h2 ");
            reveal_strlit(": ");
        }
        s
    }
}

/// The name an error code is displayed under.
pub open spec fn code_name(c: H2Code) -> &'static str {
    match c {
        H2Code::NoError => "NoError",
        H2Code::ProtocolError => "ProtocolError",
        H2Code::InternalError => "InternalError",
        H2Code::FlowControlError => "FlowControlError",
        H2Code::SettingsTimeout => "SettingsTimeout",
        H2Code::StreamClosed => "StreamClosed",
        H2Code::FrameSizeError => "FrameSizeError",
        H2Code::RefusedStream => "RefusedStream",
        H2Code::Cancel => "Cancel",
        H2Code::CompressionError => "CompressionError",
        H2Code::ConnectError => "ConnectError",
        H2Code::EnhanceYourCalm => "EnhanceYourCalm",
        H2Code::InadequateSecurity => "InadequateSecurity",
        H2Code::Http11Required => "Http11Required",
    }
}

fn code_name_str(c: H2Code) -> (r: &'static str)
    ensures
        r@ == code_name(c)@,
{
    match c {
        H2Code::NoError => "NoError",
        H2Code::ProtocolError => "ProtocolError",
        H2Code::InternalError => "InternalError",
        H2Code::FlowControlError => "FlowControlError",
        H2Code::SettingsTimeout => "SettingsTimeout",
        H2Code::StreamClosed => "StreamClosed",
        H2Code::FrameSizeError => "FrameSizeError",
        H2Code::RefusedStream => "RefusedStream",
        H2Code::Cancel => "Cancel",
        H2Code::CompressionError => "CompressionError",
        H2Code::ConnectError => "ConnectError",
        H2Code::EnhanceYourCalm => "EnhanceYourCalm",
        H2Code::InadequateSecurity => "InadequateSecurity",
        H2Code::Http11Required => "Http11Required",
    }
}

} // verus!
