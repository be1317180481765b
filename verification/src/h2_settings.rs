use vstd::prelude::*;

use crate::h2_error::{H2Code, H2Error};

verus! {

pub const SETTINGS_HEADER_TABLE_SIZE: u16 = 0x1;
pub const SETTINGS_ENABLE_PUSH: u16 = 0x2;
pub const SETTINGS_MAX_CONCURRENT_STREAMS: u16 = 0x3;
pub const SETTINGS_INITIAL_WINDOW_SIZE: u16 = 0x4;
pub const SETTINGS_MAX_FRAME_SIZE: u16 = 0x5;
pub const SETTINGS_MAX_HEADER_LIST_SIZE: u16 = 0x6;

#[derive(Clone, Copy, Debug, PartialEq, Eq)]
pub struct Settings {
    pub header_table_size: u32,
    pub enable_push: bool,
    pub max_concurrent_streams: u32,
    pub initial_window_size: u32,
    pub max_frame_size: u32,
    pub max_header_list_size: u32,
}

/// The protocol defaults used before any SETTINGS frame is seen.
pub open spec fn default_settings() -> Settings {
    Settings {
        header_table_size: 4096,
        enable_push: true,
        max_concurrent_streams: 1024,
        initial_window_size: 65_535,
        max_frame_size: 16_384,
        max_header_list_size: 65536,
    }
}

impl Settings {
    pub fn default_settings() -> (r: Settings)
        ensures
            r == default_settings(),
    {
        Settings {
            header_table_size: 4096,
            enable_push: true,
            max_concurrent_streams: 1024,
            initial_window_size: 65_535,
            max_frame_size: 16_384,
            max_header_list_size: 64 * 1024,
        }
    }
}

impl Default for Settings {
    fn default() -> (r: Settings)
        ensures
            r == default_settings(),
    {
        Settings::default_settings()
    }
}

/// The change a SETTINGS frame made to the initial stream window.
#[derive(Clone, Copy, Debug, PartialEq, Eq)]
pub struct SettingsDelta {
    initial_window_delta: i64,
}

impl SettingsDelta {
    pub closed spec fn delta(self) -> i64 {
        self.initial_window_delta
    }

    pub fn initial_window_delta(self) -> (r: i64)
        ensures
            r == self.delta(),
    {
        self.initial_window_delta
    }
}

/// Big-endian encoding of a 16-bit value.
pub open spec fn be16(v: int) -> Seq<u8> {
    seq![(v / 0x100 % 0x100) as u8, (v % 0x100) as u8]
}

/// Big-endian encoding of a 32-bit value.
pub open spec fn be32(v: int) -> Seq<u8> {
    seq![
        (v / 0x100_0000 % 0x100) as u8,
        (v / 0x1_0000 % 0x100) as u8,
        (v / 0x100 % 0x100) as u8,
        (v % 0x100) as u8,
    ]
}

/// One six-byte setting record.
pub open spec fn setting_record(id: int, v: int) -> Seq<u8> {
    be16(id) + be32(v)
}

/// The payload `encode_into` writes: all six settings in identifier order.
pub open spec fn settings_bytes(s: Settings) -> Seq<u8> {
    setting_record(1, s.header_table_size as int) + setting_record(
        2,
        if s.enable_push {
            1
        } else {
            0
        },
    ) + setting_record(3, s.max_concurrent_streams as int) + setting_record(
        4,
        s.initial_window_size as int,
    ) + setting_record(5, s.max_frame_size as int) + setting_record(
        6,
        s.max_header_list_size as int,
    )
}

/// The identifier of the record starting at `i`.
pub open spec fn record_id(p: Seq<u8>, i: int) -> int {
    p[i] as int * 0x100 + p[i + 1] as int
}

/// The value of the record starting at `i`.
pub open spec fn record_value(p: Seq<u8>, i: int) -> int {
    p[i + 2] as int * 0x100_0000 + p[i + 3] as int * 0x1_0000 + p[i + 4] as int * 0x100 + p[i
        + 5] as int
}

/// The effect of one setting on the settings, or the error it raises.
/// Unknown identifiers are ignored.
pub open spec fn apply_setting(s: Settings, id: int, v: int) -> Result<Settings, H2Code> {
    if id == 1 {
        Ok(Settings { header_table_size: v as u32, ..s })
    } else if id == 2 {
        if v == 0 {
            Ok(Settings { enable_push: false, ..s })
        } else if v == 1 {
            Ok(Settings { enable_push: true, ..s })
        } else {
            Err(H2Code::ProtocolError)
        }
    } else if id == 3 {
        Ok(Settings { max_concurrent_streams: v as u32, ..s })
    } else if id == 4 {
        if v > 0x7fff_ffff {
            Err(H2Code::FlowControlError)
        } else {
            Ok(Settings { initial_window_size: v as u32, ..s })
        }
    } else if id == 5 {
        if 16_384 <= v <= 16_777_215 {
            Ok(Settings { max_frame_size: v as u32, ..s })
        } else {
            Err(H2Code::ProtocolError)
        }
    } else if id == 6 {
        Ok(Settings { max_header_list_size: v as u32, ..s })
    } else {
        Ok(s)
    }
}

/// Applies the records of `p` in order. The result is the settings after the
/// records that were applied, and the error of the first record that was
/// refused, if any (records after it are not applied).
pub open spec fn apply_records(s: Settings, p: Seq<u8>) -> (Settings, Option<H2Code>)
    decreases p.len(),
{
    if p.len() < 6 {
        (s, None)
    } else {
        match apply_setting(s, record_id(p, 0), record_value(p, 0)) {
            Ok(s2) => apply_records(s2, p.subrange(6, p.len() as int)),
            Err(c) => (s, Some(c)),
        }
    }
}

fn push_be16(out: &mut Vec<u8>, v: u16)
    ensures
        final(out)@ == old(out)@ + be16(v as int),
{
    proof {
        assert((v >> 8) as u8 == (v / 0x100 % 0x100) as u8) by (bit_vector);
        assert(v as u8 == (v % 0x100) as u8) by (bit_vector);
    }
    out.push((v >> 8) as u8);
    out.push(v as u8);
    assert(out@ =~= old(out)@ + be16(v as int));
}

fn push_be32(out: &mut Vec<u8>, v: u32)
    ensures
        final(out)@ == old(out)@ + be32(v as int),
{
    proof {
        assert((v >> 24) as u8 == (v / 0x100_0000 % 0x100) as u8) by (bit_vector);
        assert((v >> 16) as u8 == (v / 0x1_0000 % 0x100) as u8) by (bit_vector);
        assert((v >> 8) as u8 == (v / 0x100 % 0x100) as u8) by (bit_vector);
        assert(v as u8 == (v % 0x100) as u8) by (bit_vector);
    }
    out.push((v >> 24) as u8);
    out.push((v >> 16) as u8);
    out.push((v >> 8) as u8);
    out.push(v as u8);
    assert(out@ =~= old(out)@ + be32(v as int));
}

fn push_setting(out: &mut Vec<u8>, id: u16, v: u32)
    ensures
        final(out)@ == old(out)@ + setting_record(id as int, v as int),
{
    push_be16(out, id);
    push_be32(out, v);
    assert(out@ =~= old(out)@ + setting_record(id as int, v as int));
}

impl Settings {
    /// Appends the SETTINGS payload for these settings.
    pub fn encode_into(&self, out: &mut Vec<u8>)
        ensures
            final(out)@ == old(out)@ + settings_bytes(*self),
    {
        push_setting(out, SETTINGS_HEADER_TABLE_SIZE, self.header_table_size);
        push_setting(
            out,
            SETTINGS_ENABLE_PUSH,
            if self.enable_push {
                1
            } else {
                0
            },
        );
        push_setting(out, SETTINGS_MAX_CONCURRENT_STREAMS, self.max_concurrent_streams);
        push_setting(out, SETTINGS_INITIAL_WINDOW_SIZE, self.initial_window_size);
        push_setting(out, SETTINGS_MAX_FRAME_SIZE, self.max_frame_size);
        push_setting(out, SETTINGS_MAX_HEADER_LIST_SIZE, self.max_header_list_size);
        assert(out@ =~= old(out)@ + settings_bytes(*self));
    }

    /// Applies a SETTINGS payload. The payload must be a whole number of
    /// six-byte records; records are applied in order and the first refused
    /// one stops the application with its error (the records before it stay
    /// applied).
    pub fn apply_from_payload(&mut self, payload: &[u8]) -> (r: Result<SettingsDelta, H2Error>)
        ensures
            payload@.len() % 6 != 0 ==> {
                &&& r is Err
                &&& r->Err_0.code == H2Code::FrameSizeError
                &&& *final(self) == *old(self)
            },
            payload@.len() % 6 == 0 ==> {
                let (s2, e) = apply_records(*old(self), payload@);
                &&& *final(self) == s2
                &&& match r {
                    Ok(d) => e is None && d.delta() == s2.initial_window_size as int
                        - old(self).initial_window_size as int,
                    Err(err) => e == Some(err.code),
                }
            },
    {
        if payload.len() % 6 != 0 {
            return Err(
                H2Error::new(
                    H2Code::FrameSizeError,
                    "SETTINGS payload length must be multiple of 6",
                ),
            );
        }
        let old_initial = self.initial_window_size;
        let ghost start = *self;
        let mut i: usize = 0;
        assert(payload@.subrange(0, payload@.len() as int) =~= payload@);
        while i < payload.len()
            invariant
                i <= payload@.len(),
                i % 6 == 0,
                payload@.len() % 6 == 0,
                old_initial == start.initial_window_size,
                start == *old(self),
                apply_records(start, payload@) == apply_records(
                    *self,
                    payload@.subrange(i as int, payload@.len() as int),
                ),
            decreases payload@.len() - i,
        {
            let ghost rest = payload@.subrange(i as int, payload@.len() as int);
            let id: u16 = (payload[i] as u16) * 0x100 + payload[i + 1] as u16;
            let val: u32 = (payload[i + 2] as u32) * 0x100_0000 + (payload[i + 3] as u32) * 0x1_0000
                + (payload[i + 4] as u32) * 0x100 + payload[i + 5] as u32;
            assert(record_id(rest, 0) == id);
            assert(record_value(rest, 0) == val);
            assert(rest.subrange(6, rest.len() as int) =~= payload@.subrange(
                i + 6,
                payload@.len() as int,
            ));
            assert(rest.len() >= 6);
            assert(apply_records(*self, rest) == match apply_setting(*self, id as int, val as int) {
                Ok(s2) => apply_records(s2, rest.subrange(6, rest.len() as int)),
                Err(c) => (*self, Some(c)),
            });
            i = i + 6;
            if id == SETTINGS_HEADER_TABLE_SIZE {
                self.header_table_size = val;
            } else if id == SETTINGS_ENABLE_PUSH {
                if val == 0 {
                    self.enable_push = false;
                } else if val == 1 {
                    self.enable_push = true;
                } else {
                    return Err(
                        H2Error::new(H2Code::ProtocolError, "SETTINGS_ENABLE_PUSH must be 0 or 1"),
                    );
                }
            } else if id == SETTINGS_MAX_CONCURRENT_STREAMS {
                self.max_concurrent_streams = val;
            } else if id == SETTINGS_INITIAL_WINDOW_SIZE {
                if val > 0x7fff_ffff {
                    return Err(
                        H2Error::new(
                            H2Code::FlowControlError,
                            "SETTINGS_INITIAL_WINDOW_SIZE exceeds 2^31-1",
                        ),
                    );
                }
                self.initial_window_size = val;
            } else if id == SETTINGS_MAX_FRAME_SIZE {
                if !(16_384 <= val && val <= 16_777_215) {
                    return Err(
                        H2Error::new(H2Code::ProtocolError, "SETTINGS_MAX_FRAME_SIZE out of range"),
                    );
                }
                self.max_frame_size = val;
            } else if id == SETTINGS_MAX_HEADER_LIST_SIZE {
                self.max_header_list_size = val;
            }
        }
        assert(payload@.subrange(i as int, payload@.len() as int).len() == 0);
        Ok(SettingsDelta {
            initial_window_delta: self.initial_window_size as i64 - old_initial as i64,
        })
    }
}

/// Settings are valid when every value lies in the range the protocol allows.
pub open spec fn settings_valid(s: Settings) -> bool {
    &&& s.initial_window_size <= 0x7fff_ffff
    &&& 16_384 <= s.max_frame_size <= 16_777_215
}

/// Applying records keeps valid settings valid (each setting is checked
/// against its range before it is taken).
pub proof fn lemma_apply_keeps_valid(s: Settings, p: Seq<u8>)
    requires
        settings_valid(s),
    ensures
        settings_valid(apply_records(s, p).0),
    decreases p.len(),
{
    if p.len() >= 6 {
        match apply_setting(s, record_id(p, 0), record_value(p, 0)) {
            Ok(s2) => {
                lemma_apply_keeps_valid(s2, p.subrange(6, p.len() as int));
            },
            Err(_) => {},
        }
    }
}

proof fn lemma_record(p: Seq<u8>, id: int, v: int)
    requires
        0 <= id < 0x1_0000,
        0 <= v < 0x1_0000_0000,
        p.len() >= 6,
        p.subrange(0, 6) == setting_record(id, v),
    ensures
        record_id(p, 0) == id,
        record_value(p, 0) == v,
{
    assert(p[0] == setting_record(id, v)[0]);
    assert(p[1] == setting_record(id, v)[1]);
    assert(p[2] == setting_record(id, v)[2]);
    assert(p[3] == setting_record(id, v)[3]);
    assert(p[4] == setting_record(id, v)[4]);
    assert(p[5] == setting_record(id, v)[5]);
}

proof fn lemma_apply_record_then(s: Settings, id: int, v: int, rest: Seq<u8>)
    requires
        0 <= id < 0x1_0000,
        0 <= v < 0x1_0000_0000,
        apply_setting(s, id, v) is Ok,
    ensures
        apply_records(s, setting_record(id, v) + rest) == apply_records(
            apply_setting(s, id, v)->Ok_0,
            rest,
        ),
{
    let p = setting_record(id, v) + rest;
    assert(p.subrange(0, 6) =~= setting_record(id, v));
    lemma_record(p, id, v);
    assert(p.subrange(6, p.len() as int) =~= rest);
}

/// Encoding valid settings and applying the payload to any settings yields
/// exactly the encoded settings, with no error.
pub proof fn lemma_encode_apply_roundtrip(base: Settings, s: Settings)
    requires
        settings_valid(s),
    ensures
        apply_records(base, settings_bytes(s)) == (s, Option::<H2Code>::None),
{
    let push_v: int = if s.enable_push {
        1
    } else {
        0
    };
    let r6 = setting_record(6, s.max_header_list_size as int);
    let r5 = setting_record(5, s.max_frame_size as int) + r6;
    let r4 = setting_record(4, s.initial_window_size as int) + r5;
    let r3 = setting_record(3, s.max_concurrent_streams as int) + r4;
    let r2 = setting_record(2, push_v) + r3;
    let r1 = setting_record(1, s.header_table_size as int) + r2;
    assert(settings_bytes(s) =~= r1);
    let s1 = Settings { header_table_size: s.header_table_size, ..base };
    let s2 = Settings { enable_push: s.enable_push, ..s1 };
    let s3 = Settings { max_concurrent_streams: s.max_concurrent_streams, ..s2 };
    let s4 = Settings { initial_window_size: s.initial_window_size, ..s3 };
    let s5 = Settings { max_frame_size: s.max_frame_size, ..s4 };
    let s6 = Settings { max_header_list_size: s.max_header_list_size, ..s5 };
    lemma_apply_record_then(base, 1, s.header_table_size as int, r2);
    lemma_apply_record_then(s1, 2, push_v, r3);
    lemma_apply_record_then(s2, 3, s.max_concurrent_streams as int, r4);
    lemma_apply_record_then(s3, 4, s.initial_window_size as int, r5);
    lemma_apply_record_then(s4, 5, s.max_frame_size as int, r6);
    lemma_apply_record_then(s5, 6, s.max_header_list_size as int, Seq::<u8>::empty());
    assert(r6 =~= r6 + Seq::<u8>::empty());
    assert(s6 == s);
}

} // verus!
