use vstd::prelude::*;
use std::time::Duration;

verus! {

/// Settings of the slow-headers (slowloris) guard.
#[derive(Clone, Copy, Debug)]
pub struct SlowlorisConfig {
    pub enabled: bool,
    pub headers_timeout_secs: u64,
    pub min_recv_rate_bps: u64,
    pub max_incomplete_conns_per_ip: u32,
}

/// Settings of the TLS handshake flood guard.
#[derive(Clone, Copy, Debug)]
pub struct TlsFloodConfig {
    pub enabled: bool,
    pub max_handshakes_per_ip_per_sec: u32,
}

/// Settings of the HTTP/2 stream flood guard.
#[derive(Clone, Copy, Debug)]
pub struct H2StreamFloodConfig {
    pub enabled: bool,
    pub max_concurrent_streams: u32,
    pub max_streams_per_sec: u32,
    pub max_rst_per_sec: u32,
}

/// Settings of all layer-7 protections.
#[derive(Clone, Copy, Debug)]
pub struct L7ProtectionConfig {
    pub slowloris: SlowlorisConfig,
    pub tls_flood: TlsFloodConfig,
    pub h2_stream_flood: H2StreamFloodConfig,
}

impl Default for L7ProtectionConfig {
    /// Every guard off, with moderate limits ready for when it is switched on.
    fn default() -> (r: Self)
        ensures
            !r.slowloris.enabled,
            r.slowloris.headers_timeout_secs == 10,
            r.slowloris.min_recv_rate_bps == 64,
            r.slowloris.max_incomplete_conns_per_ip == 32,
            !r.tls_flood.enabled,
            r.tls_flood.max_handshakes_per_ip_per_sec == 64,
            !r.h2_stream_flood.enabled,
            r.h2_stream_flood.max_concurrent_streams == 128,
            r.h2_stream_flood.max_streams_per_sec == 256,
            r.h2_stream_flood.max_rst_per_sec == 128,
    {
        L7ProtectionConfig {
            slowloris: SlowlorisConfig {
                enabled: false,
                headers_timeout_secs: 10,
                min_recv_rate_bps: 64,
                max_incomplete_conns_per_ip: 32,
            },
            tls_flood: TlsFloodConfig { enabled: false, max_handshakes_per_ip_per_sec: 64 },
            h2_stream_flood: H2StreamFloodConfig {
                enabled: false,
                max_concurrent_streams: 128,
                max_streams_per_sec: 256,
                max_rst_per_sec: 128,
            },
        }
    }
}

/// Counters of what the guards dropped.
#[derive(Debug)]
pub struct L7Metrics {
    pub slowloris_dropped_total: u64,
    pub tls_flood_dropped_total: u64,
    pub h2_stream_flood_dropped_total: u64,
}

impl Default for L7Metrics {
    fn default() -> (r: Self)
        ensures
            r.slowloris_dropped_total == 0,
            r.tls_flood_dropped_total == 0,
            r.h2_stream_flood_dropped_total == 0,
    {
        L7Metrics { slowloris_dropped_total: 0, tls_flood_dropped_total: 0, h2_stream_flood_dropped_total: 0 }
    }
}

/// Number of per-address buckets each guard keeps.
pub const IP_BUCKETS: usize = 262144;

/// `max(v, 1)`.
pub open spec fn at_least_one_u64(v: u64) -> u64 {
    if v == 0 { 1 } else { v }
}

/// `max(v, 1)`.
pub open spec fn at_least_one_u32(v: u32) -> u32 {
    if v == 0 { 1 } else { v }
}

/// The splitmix64-style mixer that spreads client keys over buckets.
pub open spec fn mix64(key: u64) -> u64 {
    let x0 = key.wrapping_add(0x9E3779B97F4A7C15u64);
    let x1 = (x0 ^ (x0 >> 30u64)).wrapping_mul(0xBF58476D1CE4E5B9u64);
    let x2 = (x1 ^ (x1 >> 27u64)).wrapping_mul(0x94D049BB133111EBu64);
    x2 ^ (x2 >> 31u64)
}

fn hash64(key: u64) -> (r: u64)
    ensures
        r == mix64(key),
{
    let mut x = key.wrapping_add(0x9E3779B97F4A7C15u64);
    x = (x ^ (x >> 30u64)).wrapping_mul(0xBF58476D1CE4E5B9u64);
    x = (x ^ (x >> 27u64)).wrapping_mul(0x94D049BB133111EBu64);
    x ^ (x >> 31u64)
}

/// Bucket of `key` in a table whose index mask is `mask`.
pub open spec fn bucket_index(key: u64, mask: u64) -> int {
    (mix64(key) & mask) as int
}

proof fn lemma_masked_le(x: u64, m: u64)
    ensures
        x & m <= m,
{
    assert(x & m <= m) by (bit_vector);
}

/// `secs * 10^9`, saturated at `u64::MAX`.
pub open spec fn secs_to_ns_saturating(secs: u64) -> u64 {
    if secs * 1_000_000_000int > u64::MAX { u64::MAX } else { (secs * 1_000_000_000int) as u64 }
}

/// `v - 1`, or 0 when `v` is 0.
pub open spec fn sat_dec(v: u32) -> u32 {
    if v == 0 { 0 } else { (v - 1) as u32 }
}

/// Bucket value after a connection start with cap `max`: incremented
/// (wrapping, as the counter does) and rolled back when over the cap.
pub open spec fn start_count(old: u32, max: u32) -> u32 {
    let w = old.wrapping_add(1u32);
    if old.saturating_add(1u32) > max { sat_dec(w) } else { w }
}

/// Approximate per-address counters: a key shares its bucket with every key
/// that hashes to the same slot.
struct IpBucketCounter {
    mask: u64,
    buckets: Vec<u32>,
}

impl IpBucketCounter {
    spec fn wf(&self) -> bool {
        &&& self.buckets.len() >= 1
        &&& self.mask as int == self.buckets.len() - 1
    }

    spec fn slot(&self, key: u64) -> int {
        bucket_index(key, self.mask)
    }

    /// A table of at least `min_buckets` (and at least 1024) zeroed buckets,
    /// a power of two in number.
    fn new(min_buckets: usize) -> (r: Self)
        requires
            min_buckets <= 0x4000_0000,
        ensures
            r.wf(),
            r.buckets.len() >= min_buckets,
            r.buckets.len() >= 1024,
            forall|i: int| 0 <= i < r.buckets.len() ==> r.buckets@[i] == 0,
    {
        let mut n: usize = 1024;
        while n < min_buckets
            invariant
                1024 <= n <= 0x8000_0000,
                min_buckets <= 0x4000_0000,
            decreases 0x8000_0000 - n,
        {
            n = n * 2;
        }
        let mut v: Vec<u32> = Vec::with_capacity(n);
        let mut i: usize = 0;
        while i < n
            invariant
                i <= n,
                v.len() == i,
                forall|j: int| 0 <= j < v.len() ==> v@[j] == 0,
            decreases n - i,
        {
            v.push(0);
            i = i + 1;
        }
        IpBucketCounter { mask: (n - 1) as u64, buckets: v }
    }

    fn idx(&self, key: u64) -> (r: usize)
        requires
            self.wf(),
        ensures
            r as int == self.slot(key),
            r < self.buckets.len(),
    {
        let h = hash64(key);
        proof {
            lemma_masked_le(h, self.mask);
        }
        (h & self.mask) as usize
    }

    /// Increments the key's bucket (wrapping) and returns the incremented
    /// value saturated at `u32::MAX`.
    fn inc(&mut self, key: u64) -> (r: u32)
        requires
            old(self).wf(),
        ensures
            final(self).wf(),
            final(self).mask == old(self).mask,
            r == old(self).buckets@[old(self).slot(key)].saturating_add(1u32),
            final(self).buckets@ == old(self).buckets@.update(
                old(self).slot(key),
                old(self).buckets@[old(self).slot(key)].wrapping_add(1u32),
            ),
    {
        let i = self.idx(key);
        let cur = self.buckets[i];
        self.buckets.set(i, cur.wrapping_add(1u32));
        cur.saturating_add(1u32)
    }

    /// Decrements the key's bucket unless it is already 0.
    fn dec(&mut self, key: u64)
        requires
            old(self).wf(),
        ensures
            final(self).wf(),
            final(self).mask == old(self).mask,
            final(self).buckets@ == old(self).buckets@.update(
                old(self).slot(key),
                sat_dec(old(self).buckets@[old(self).slot(key)]),
            ),
    {
        let i = self.idx(key);
        let cur = self.buckets[i];
        if cur == 0 {
            proof {
                assert(self.buckets@ =~= old(self).buckets@.update(old(self).slot(key), 0u32));
            }
            return ;
        }
        self.buckets.set(i, cur - 1);
    }

    fn get(&self, key: u64) -> (r: u32)
        requires
            self.wf(),
        ensures
            r == self.buckets@[self.slot(key)],
    {
        let i = self.idx(key);
        self.buckets[i]
    }
}

/// Decision of the slow-headers guard.
#[derive(Clone, Copy, Debug, PartialEq, Eq, Structural)]
pub enum SlowlorisDecision {
    Allow,
    DropTimeout,
    DropMinRate,
    DropTooManyIncomplete,
}

/// Per-connection state of the slow-headers guard, kept by the caller.
#[derive(Clone, Copy, Debug)]
pub struct SlowlorisConnState {
    pub started_ns: u64,
    pub bytes_in_headers: u64,
}

/// Header bytes per second, `bytes * 10^9 / elapsed_ns` (with an elapsed
/// time of at least 1 ns), truncated to 64 bits.
pub open spec fn header_rate(bytes: u64, elapsed_ns: u64) -> u64 {
    ((bytes * 1_000_000_000int) / (at_least_one_u64(elapsed_ns) as int)) as u64
}

/// Slow-headers guard: caps connections per client that have not finished
/// their headers, and drops connections whose headers take too long or
/// arrive too slowly.
pub struct SlowlorisGuard {
    enabled: bool,
    headers_timeout_ns: u64,
    min_recv_rate_bps: u64,
    max_incomplete_per_ip: u32,
    incomplete: IpBucketCounter,
}

impl SlowlorisGuard {
    pub closed spec fn wf(&self) -> bool {
        self.incomplete.wf()
    }

    pub closed spec fn is_on(&self) -> bool {
        self.enabled
    }

    pub closed spec fn timeout_ns(&self) -> u64 {
        self.headers_timeout_ns
    }

    pub closed spec fn min_rate(&self) -> u64 {
        self.min_recv_rate_bps
    }

    pub closed spec fn max_incomplete(&self) -> u32 {
        self.max_incomplete_per_ip
    }

    /// The bucket that `key` is counted in.
    pub closed spec fn bucket(&self, key: u64) -> int {
        self.incomplete.slot(key)
    }

    /// The counts of unfinished connections, bucket by bucket.
    pub closed spec fn counts(&self) -> Seq<u32> {
        self.incomplete.buckets@
    }

    /// Every key's bucket lies inside the count table.
    pub proof fn lemma_bucket_in_table(&self, key: u64)
        requires
            self.wf(),
        ensures
            0 <= self.bucket(key) < self.counts().len(),
    {
        lemma_masked_le(mix64(key), self.incomplete.mask);
    }

    /// The count of unfinished connections that `key` is charged against.
    pub open spec fn incomplete_of(&self, key: u64) -> u32 {
        self.counts()[self.bucket(key)]
    }

    /// Everything but the counts is the same in `self` and `other`.
    pub open spec fn same_settings(&self, other: &Self) -> bool {
        &&& self.is_on() == other.is_on()
        &&& self.timeout_ns() == other.timeout_ns()
        &&& self.min_rate() == other.min_rate()
        &&& self.max_incomplete() == other.max_incomplete()
        &&& forall|k: u64| #[trigger] self.bucket(k) == other.bucket(k)
    }

    pub fn new(cfg: &L7ProtectionConfig) -> (r: Self)
        ensures
            r.wf(),
            r.is_on() == cfg.slowloris.enabled,
            r.timeout_ns() == at_least_one_u64(secs_to_ns_saturating(cfg.slowloris.headers_timeout_secs)),
            r.min_rate() == at_least_one_u64(cfg.slowloris.min_recv_rate_bps),
            r.max_incomplete() == at_least_one_u32(cfg.slowloris.max_incomplete_conns_per_ip),
            r.counts().len() >= IP_BUCKETS,
            forall|k: u64| #[trigger] r.incomplete_of(k) == 0,
    {
        let c = &cfg.slowloris;
        let t: u64 = match c.headers_timeout_secs.checked_mul(1_000_000_000u64) {
            Some(v) => v,
            None => u64::MAX,
        };
        let r = SlowlorisGuard {
            enabled: c.enabled,
            headers_timeout_ns: if t == 0 { 1 } else { t },
            min_recv_rate_bps: if c.min_recv_rate_bps == 0 { 1 } else { c.min_recv_rate_bps },
            max_incomplete_per_ip: if c.max_incomplete_conns_per_ip == 0 { 1 } else { c.max_incomplete_conns_per_ip },
            incomplete: IpBucketCounter::new(IP_BUCKETS),
        };
        proof {
            assert forall|k: u64| #[trigger] r.incomplete_of(k) == 0 by {
                lemma_masked_le(mix64(k), r.incomplete.mask);
            }
        }
        r
    }

    /// A new connection from `key` whose headers are not complete yet:
    /// refused (and not counted) when it would take the key's bucket over
    /// the cap, counted and allowed otherwise. A disabled guard allows all
    /// and counts nothing.
    pub fn on_conn_start(&mut self, key: u64) -> (r: SlowlorisDecision)
        requires
            old(self).wf(),
        ensures
            final(self).wf(),
            final(self).same_settings(old(self)),
            0 <= old(self).bucket(key) < old(self).counts().len(),
            final(self).counts().len() == old(self).counts().len(),
            !old(self).is_on() ==> r == SlowlorisDecision::Allow && final(self).counts() == old(self).counts(),
            old(self).is_on() ==> {
                &&& r == (if old(self).incomplete_of(key).saturating_add(1u32) > old(self).max_incomplete() {
                    SlowlorisDecision::DropTooManyIncomplete
                } else {
                    SlowlorisDecision::Allow
                })
                &&& final(self).counts() == old(self).counts().update(
                    old(self).bucket(key),
                    start_count(old(self).incomplete_of(key), old(self).max_incomplete()),
                )
            },
    {
        proof {
            self.lemma_bucket_in_table(key);
        }
        if !self.enabled {
            return SlowlorisDecision::Allow;
        }
        proof {
            lemma_masked_le(mix64(key), self.incomplete.mask);
        }
        let ghost before = self.incomplete.buckets@;
        let cur = self.incomplete.inc(key);
        if cur > self.max_incomplete_per_ip {
            self.incomplete.dec(key);
            proof {
                let i = old(self).incomplete.slot(key);
                assert(self.incomplete.buckets@ =~= before.update(i, start_count(before[i], self.max_incomplete_per_ip)));
            }
            SlowlorisDecision::DropTooManyIncomplete
        } else {
            SlowlorisDecision::Allow
        }
    }

    /// A connection from `key` finished its headers or closed: its bucket
    /// goes down by one (not below 0). A disabled guard does nothing.
    pub fn on_conn_end(&mut self, key: u64)
        requires
            old(self).wf(),
        ensures
            final(self).wf(),
            final(self).same_settings(old(self)),
            0 <= old(self).bucket(key) < old(self).counts().len(),
            final(self).counts().len() == old(self).counts().len(),
            final(self).counts() == (if old(self).is_on() {
                old(self).counts().update(old(self).bucket(key), sat_dec(old(self).incomplete_of(key)))
            } else {
                old(self).counts()
            }),
    {
        proof {
            self.lemma_bucket_in_table(key);
        }
        if !self.enabled {
            return ;
        }
        self.incomplete.dec(key);
    }

    /// Count of unfinished connections charged against `key`'s bucket.
    pub fn incomplete_count(&self, key: u64) -> (r: u32)
        requires
            self.wf(),
        ensures
            r == self.incomplete_of(key),
    {
        self.incomplete.get(key)
    }

    /// Fresh per-connection state for a connection that started at `now_ns`.
    pub fn init_conn_state(&self, now_ns: u64) -> (r: SlowlorisConnState)
        ensures
            r.started_ns == now_ns,
            r.bytes_in_headers == 0,
    {
        SlowlorisConnState { started_ns: now_ns, bytes_in_headers: 0 }
    }

    /// The guard's verdict on a connection whose header bytes so far are
    /// `bytes`, started at `started_ns`, at time `now_ns`.
    pub open spec fn header_verdict(&self, started_ns: u64, bytes: u64, now_ns: u64) -> SlowlorisDecision {
        let elapsed = now_ns.saturating_sub(started_ns);
        if !self.is_on() {
            SlowlorisDecision::Allow
        } else if elapsed > self.timeout_ns() {
            SlowlorisDecision::DropTimeout
        } else if header_rate(bytes, elapsed) < self.min_rate() {
            SlowlorisDecision::DropMinRate
        } else {
            SlowlorisDecision::Allow
        }
    }

    /// `added` more header bytes arrived at `now_ns`: they are counted (when
    /// the guard is on), then the connection is dropped if the headers took
    /// longer than the timeout or came slower than the minimum rate.
    pub fn on_header_bytes(&self, now_ns: u64, state: &mut SlowlorisConnState, added: u32) -> (r: SlowlorisDecision)
        ensures
            final(state).started_ns == old(state).started_ns,
            final(state).bytes_in_headers == (if self.is_on() {
                old(state).bytes_in_headers.saturating_add(added as u64)
            } else {
                old(state).bytes_in_headers
            }),
            r == self.header_verdict(final(state).started_ns, final(state).bytes_in_headers, now_ns),
    {
        if !self.enabled {
            return SlowlorisDecision::Allow;
        }
        state.bytes_in_headers = state.bytes_in_headers.saturating_add(added as u64);
        let elapsed = now_ns.saturating_sub(state.started_ns);
        if elapsed > self.headers_timeout_ns {
            return SlowlorisDecision::DropTimeout;
        }
        let elapsed_ns: u64 = if elapsed == 0 { 1 } else { elapsed };
        let bytes = state.bytes_in_headers;
        proof {
            assert(bytes * 1_000_000_000int <= u128::MAX) by (nonlinear_arith)
                requires
                    bytes <= u64::MAX,
            ;
        }
        let scaled: u128 = (bytes as u128) * 1_000_000_000u128;
        let rate = (scaled / (elapsed_ns as u128)) as u64;
        if rate < self.min_recv_rate_bps {
            SlowlorisDecision::DropMinRate
        } else {
            SlowlorisDecision::Allow
        }
    }

    pub fn headers_timeout_ns(&self) -> (r: u64)
        ensures
            r == self.timeout_ns(),
    {
        self.headers_timeout_ns
    }
}

/// Starting a connection that the guard allows and then ending it leaves
/// every count as it was, as long as the key's bucket was not at `u32::MAX`.
pub proof fn lemma_conn_start_end_restores(old: u32, max: u32)
    requires
        old < u32::MAX,
        old + 1 <= max,
    ensures
        sat_dec(start_count(old, max)) == old,
{
}

/// A refused connection start leaves the key's count as it was, as long as
/// the count was not at `u32::MAX`.
pub proof fn lemma_refused_start_is_rolled_back(old: u32, max: u32)
    requires
        old < u32::MAX,
        old + 1 > max,
    ensures
        start_count(old, max) == old,
{
}

/// Decision of the TLS handshake flood guard.
#[derive(Clone, Copy, Debug, PartialEq, Eq, Structural)]
pub enum TlsFloodDecision {
    Allow,
    DropRateLimited,
}

/// The second stored in a packed window cell.
pub open spec fn cell_sec(cell: u64) -> u32 {
    (cell >> 32u64) as u32
}

/// The count stored in a packed window cell.
pub open spec fn cell_count(cell: u64) -> u32 {
    (cell & 0xFFFF_FFFFu64) as u32
}

proof fn lemma_pack(sec: u32, cnt: u32)
    ensures
        cell_sec(((sec as u64) << 32u64) | (cnt as u64)) == sec,
        cell_count(((sec as u64) << 32u64) | (cnt as u64)) == cnt,
{
    let c = ((sec as u64) << 32u64) | (cnt as u64);
    assert(((((sec as u64) << 32u64) | (cnt as u64)) >> 32u64) as u32 == sec) by (bit_vector);
    assert(((((sec as u64) << 32u64) | (cnt as u64)) & 0xFFFF_FFFFu64) as u32 == cnt) by (bit_vector);
}

/// TLS handshake rate guard: counts handshakes per client bucket in windows
/// of one second and refuses those past the per-second limit.
pub struct TlsFloodGuard {
    enabled: bool,
    max_per_sec: u32,
    buckets: Vec<u64>,
    mask: u64,
}

impl TlsFloodGuard {
    pub closed spec fn wf(&self) -> bool {
        &&& self.buckets.len() >= 1
        &&& self.mask as int == self.buckets.len() - 1
    }

    pub closed spec fn is_on(&self) -> bool {
        self.enabled
    }

    pub closed spec fn limit(&self) -> u32 {
        self.max_per_sec
    }

    /// The bucket that `key` is counted in.
    pub closed spec fn bucket(&self, key: u64) -> int {
        bucket_index(key, self.mask)
    }

    /// The packed (second, count) cells, bucket by bucket.
    pub closed spec fn cells(&self) -> Seq<u64> {
        self.buckets@
    }

    /// The second of the window that `key`'s bucket counts.
    pub open spec fn window_of(&self, key: u64) -> u32 {
        cell_sec(self.cells()[self.bucket(key)])
    }

    /// The handshakes counted in `key`'s bucket in its window.
    pub open spec fn count_of(&self, key: u64) -> u32 {
        cell_count(self.cells()[self.bucket(key)])
    }

    pub fn new(cfg: &L7ProtectionConfig) -> (r: Self)
        ensures
            r.wf(),
            r.is_on() == cfg.tls_flood.enabled,
            r.limit() == at_least_one_u32(cfg.tls_flood.max_handshakes_per_ip_per_sec),
            r.cells().len() == IP_BUCKETS,
            forall|k: u64| #[trigger] r.window_of(k) == 0 && r.count_of(k) == 0,
    {
        let c = &cfg.tls_flood;
        let n: usize = IP_BUCKETS;
        let mut v: Vec<u64> = Vec::with_capacity(n);
        let mut i: usize = 0;
        while i < n
            invariant
                i <= n,
                n == IP_BUCKETS,
                v.len() == i,
                forall|j: int| 0 <= j < v.len() ==> v@[j] == 0,
            decreases n - i,
        {
            v.push(0);
            i = i + 1;
        }
        let r = TlsFloodGuard {
            enabled: c.enabled,
            max_per_sec: if c.max_handshakes_per_ip_per_sec == 0 { 1 } else { c.max_handshakes_per_ip_per_sec },
            buckets: v,
            mask: (n - 1) as u64,
        };
        proof {
            assert forall|k: u64| #[trigger] r.window_of(k) == 0 && r.count_of(k) == 0 by {
                lemma_masked_le(mix64(k), r.mask);
                let b = r.bucket(k);
                assert(0 <= b < r.buckets@.len());
                assert(r.cells()[b] == 0u64);
                assert((0u64 >> 32u64) as u32 == 0u32) by (bit_vector);
                assert((0u64 & 0xFFFF_FFFFu64) as u32 == 0u32) by (bit_vector);
            }
        }
        r
    }

    /// A handshake from `key` at second `now_sec`: a bucket whose window is
    /// another second starts a new window with count 1; otherwise its count
    /// goes up by one (saturating). The handshake is refused when the count
    /// is then over the limit. A disabled guard allows all and counts
    /// nothing.
    pub fn on_handshake(&mut self, key: u64, now_sec: u32) -> (r: TlsFloodDecision)
        requires
            old(self).wf(),
        ensures
            final(self).wf(),
            final(self).is_on() == old(self).is_on(),
            final(self).limit() == old(self).limit(),
            forall|k: u64| #[trigger] final(self).bucket(k) == old(self).bucket(k),
            !old(self).is_on() ==> r == TlsFloodDecision::Allow && final(self).cells() == old(self).cells(),
            old(self).is_on() ==> {
                &&& final(self).cells() == old(self).cells().update(
                    old(self).bucket(key),
                    final(self).cells()[old(self).bucket(key)],
                )
                &&& final(self).window_of(key) == now_sec
                &&& final(self).count_of(key) == (if old(self).window_of(key) != now_sec {
                    1u32
                } else {
                    old(self).count_of(key).saturating_add(1u32)
                })
                &&& r == (if final(self).count_of(key) > old(self).limit() {
                    TlsFloodDecision::DropRateLimited
                } else {
                    TlsFloodDecision::Allow
                })
            },
    {
        if !self.enabled {
            return TlsFloodDecision::Allow;
        }
        let h = hash64(key);
        proof {
            lemma_masked_le(h, self.mask);
        }
        let i = (h & self.mask) as usize;
        let cur = self.buckets[i];
        let sec = (cur >> 32u64) as u32;
        let cnt = (cur & 0xFFFF_FFFFu64) as u32;
        let next_cnt: u32 = if sec != now_sec { 1 } else { cnt.saturating_add(1u32) };
        let next: u64 = ((now_sec as u64) << 32u64) | (next_cnt as u64);
        proof {
            lemma_pack(now_sec, next_cnt);
        }
        self.buckets.set(i, next);
        if next_cnt > self.max_per_sec {
            TlsFloodDecision::DropRateLimited
        } else {
            TlsFloodDecision::Allow
        }
    }
}

/// Decision of the HTTP/2 stream flood guard.
#[derive(Clone, Copy, Debug, PartialEq, Eq, Structural)]
pub enum H2Decision {
    Allow,
    GoAway,
}

/// Per-connection state of the HTTP/2 stream flood guard, kept by the caller.
#[derive(Clone, Copy, Debug, PartialEq, Eq, Structural)]
pub struct H2ConnState {
    pub open_streams: u32,
    pub window_sec: u32,
    pub streams_created_in_window: u32,
    pub rsts_in_window: u32,
}

/// `st` with its per-second counters reset when `now_sec` starts a new window.
pub open spec fn rotated(st: H2ConnState, now_sec: u32) -> H2ConnState {
    if st.window_sec != now_sec {
        H2ConnState { window_sec: now_sec, streams_created_in_window: 0, rsts_in_window: 0, ..st }
    } else {
        st
    }
}

/// HTTP/2 stream flood guard: limits concurrent streams, new streams per
/// second and stream resets per second on one connection.
pub struct H2StreamFloodGuard {
    enabled: bool,
    max_concurrent_streams: u32,
    max_streams_per_sec: u32,
    max_rst_per_sec: u32,
}

impl H2StreamFloodGuard {
    pub closed spec fn is_on(&self) -> bool {
        self.enabled
    }

    pub closed spec fn max_concurrent(&self) -> u32 {
        self.max_concurrent_streams
    }

    pub closed spec fn max_new_per_sec(&self) -> u32 {
        self.max_streams_per_sec
    }

    pub closed spec fn max_resets_per_sec(&self) -> u32 {
        self.max_rst_per_sec
    }

    pub fn new(cfg: &L7ProtectionConfig) -> (r: Self)
        ensures
            r.is_on() == cfg.h2_stream_flood.enabled,
            r.max_concurrent() == at_least_one_u32(cfg.h2_stream_flood.max_concurrent_streams),
            r.max_new_per_sec() == at_least_one_u32(cfg.h2_stream_flood.max_streams_per_sec),
            r.max_resets_per_sec() == at_least_one_u32(cfg.h2_stream_flood.max_rst_per_sec),
    {
        let c = &cfg.h2_stream_flood;
        H2StreamFloodGuard {
            enabled: c.enabled,
            max_concurrent_streams: if c.max_concurrent_streams == 0 { 1 } else { c.max_concurrent_streams },
            max_streams_per_sec: if c.max_streams_per_sec == 0 { 1 } else { c.max_streams_per_sec },
            max_rst_per_sec: if c.max_rst_per_sec == 0 { 1 } else { c.max_rst_per_sec },
        }
    }

    /// Fresh per-connection state whose window is `now_sec`.
    pub fn init_conn_state(&self, now_sec: u32) -> (r: H2ConnState)
        ensures
            r == (H2ConnState { open_streams: 0, window_sec: now_sec, streams_created_in_window: 0, rsts_in_window: 0 }),
    {
        H2ConnState { open_streams: 0, window_sec: now_sec, streams_created_in_window: 0, rsts_in_window: 0 }
    }

    fn rotate_window_if_needed(&self, st: &mut H2ConnState, now_sec: u32)
        ensures
            *final(st) == rotated(*old(st), now_sec),
    {
        if st.window_sec != now_sec {
            st.window_sec = now_sec;
            st.streams_created_in_window = 0;
            st.rsts_in_window = 0;
        }
    }

    /// State and verdict after a new inbound stream at `now_sec`.
    pub open spec fn stream_open_step(&self, st: H2ConnState, now_sec: u32) -> (H2ConnState, H2Decision) {
        if !self.is_on() {
            (H2ConnState { open_streams: st.open_streams.saturating_add(1u32), ..st }, H2Decision::Allow)
        } else {
            let s = rotated(st, now_sec);
            let s2 = H2ConnState {
                open_streams: s.open_streams.saturating_add(1u32),
                streams_created_in_window: s.streams_created_in_window.saturating_add(1u32),
                ..s
            };
            let d = if s2.open_streams > self.max_concurrent() || s2.streams_created_in_window > self.max_new_per_sec() {
                H2Decision::GoAway
            } else {
                H2Decision::Allow
            };
            (s2, d)
        }
    }

    /// State and verdict after a RST_STREAM from the peer at `now_sec`.
    pub open spec fn rst_step(&self, st: H2ConnState, now_sec: u32) -> (H2ConnState, H2Decision) {
        if !self.is_on() {
            (st, H2Decision::Allow)
        } else {
            let s = rotated(st, now_sec);
            let s2 = H2ConnState { rsts_in_window: s.rsts_in_window.saturating_add(1u32), ..s };
            let d = if s2.rsts_in_window > self.max_resets_per_sec() {
                H2Decision::GoAway
            } else {
                H2Decision::Allow
            };
            (s2, d)
        }
    }

    /// A new inbound stream: counted as open (always) and as created in the
    /// current window (when on); the connection should go away when it is
    /// over the concurrency or the per-second limit.
    pub fn on_stream_open(&self, st: &mut H2ConnState, now_sec: u32) -> (r: H2Decision)
        ensures
            (*final(st), r) == self.stream_open_step(*old(st), now_sec),
    {
        if !self.enabled {
            st.open_streams = st.open_streams.saturating_add(1u32);
            return H2Decision::Allow;
        }
        self.rotate_window_if_needed(st, now_sec);
        st.open_streams = st.open_streams.saturating_add(1u32);
        st.streams_created_in_window = st.streams_created_in_window.saturating_add(1u32);
        if st.open_streams > self.max_concurrent_streams {
            return H2Decision::GoAway;
        }
        if st.streams_created_in_window > self.max_streams_per_sec {
            return H2Decision::GoAway;
        }
        H2Decision::Allow
    }

    /// A stream closed: one fewer open stream (not below 0).
    pub fn on_stream_close(&self, st: &mut H2ConnState)
        ensures
            *final(st) == (H2ConnState {
                open_streams: if old(st).open_streams > 0 { (old(st).open_streams - 1) as u32 } else { 0 },
                ..*old(st)
            }),
    {
        if st.open_streams > 0 {
            st.open_streams = st.open_streams - 1;
        }
    }

    /// A RST_STREAM from the peer: counted in the current window (when on);
    /// the connection should go away when the count is over the limit.
    pub fn on_rst_stream(&self, st: &mut H2ConnState, now_sec: u32) -> (r: H2Decision)
        ensures
            (*final(st), r) == self.rst_step(*old(st), now_sec),
    {
        if !self.enabled {
            return H2Decision::Allow;
        }
        self.rotate_window_if_needed(st, now_sec);
        st.rsts_in_window = st.rsts_in_window.saturating_add(1u32);
        if st.rsts_in_window > self.max_rst_per_sec {
            return H2Decision::GoAway;
        }
        H2Decision::Allow
    }
}

/// Opening a stream and then closing it leaves the number of open streams
/// as it was, as long as it was below `u32::MAX`.
pub proof fn lemma_stream_open_close(g: H2StreamFloodGuard, st: H2ConnState, now_sec: u32)
    requires
        st.open_streams < u32::MAX,
    ensures
        ({
            let s = g.stream_open_step(st, now_sec).0;
            (if s.open_streams > 0 { (s.open_streams - 1) as u32 } else { 0 }) == st.open_streams
        }),
{
}

/// Within one second window, a connection gets at most the per-second limit
/// of new streams allowed: the step that takes the window count over the
/// limit says go away.
pub proof fn lemma_stream_burst_bounded(g: H2StreamFloodGuard, st: H2ConnState, now_sec: u32)
    requires
        g.is_on(),
        st.window_sec == now_sec,
        g.max_new_per_sec() <= st.streams_created_in_window < u32::MAX,
    ensures
        g.stream_open_step(st, now_sec).1 == H2Decision::GoAway,
{
}

/// A step in a new second starts the window over: its counters hold only
/// that step.
pub proof fn lemma_new_window_resets(g: H2StreamFloodGuard, st: H2ConnState, now_sec: u32)
    requires
        g.is_on(),
        st.window_sec != now_sec,
    ensures
        g.stream_open_step(st, now_sec).0.streams_created_in_window == 1,
        g.stream_open_step(st, now_sec).0.rsts_in_window == 0,
        g.rst_step(st, now_sec).0.rsts_in_window == 1,
        g.rst_step(st, now_sec).0.streams_created_in_window == 0,
{
}

/// All layer-7 guards with their counters.
pub struct L7Protection {
    pub slowloris: SlowlorisGuard,
    pub tls_flood: TlsFloodGuard,
    pub h2_stream_flood: H2StreamFloodGuard,
    pub metrics: L7Metrics,
}

impl L7Protection {
    pub fn new(cfg: &L7ProtectionConfig) -> (r: Self)
        ensures
            r.slowloris.wf(),
            r.tls_flood.wf(),
            r.slowloris.is_on() == cfg.slowloris.enabled,
            r.tls_flood.is_on() == cfg.tls_flood.enabled,
            r.h2_stream_flood.is_on() == cfg.h2_stream_flood.enabled,
            r.slowloris.max_incomplete() == at_least_one_u32(cfg.slowloris.max_incomplete_conns_per_ip),
            r.tls_flood.limit() == at_least_one_u32(cfg.tls_flood.max_handshakes_per_ip_per_sec),
            r.h2_stream_flood.max_concurrent() == at_least_one_u32(cfg.h2_stream_flood.max_concurrent_streams),
            r.metrics.slowloris_dropped_total == 0,
            r.metrics.tls_flood_dropped_total == 0,
            r.metrics.h2_stream_flood_dropped_total == 0,
    {
        L7Protection {
            slowloris: SlowlorisGuard::new(cfg),
            tls_flood: TlsFloodGuard::new(cfg),
            h2_stream_flood: H2StreamFloodGuard::new(cfg),
            metrics: L7Metrics::default(),
        }
    }
}

/// `secs` clamped to `u32::MAX`.
pub open spec fn clamp_secs(secs: u64) -> u32 {
    if secs > u32::MAX as u64 { u32::MAX } else { secs as u32 }
}

/// `secs` clamped to `u32::MAX`.
pub fn secs_to_u32_clamped(secs: u64) -> (r: u32)
    ensures
        r == clamp_secs(secs),
{
    if secs > u32::MAX as u64 { u32::MAX } else { secs as u32 }
}

/// The whole seconds of `d` (`Duration::as_secs`, a function of the
/// duration alone; named, not modelled).
#[verifier::external_body]
fn duration_whole_secs(d: &Duration) -> (r: u64)
    ensures
        r == crate::forward_policies::secs_of(*d),
{
    d.as_secs()
}

/// Whole seconds of `d`, clamped to `u32::MAX`.
pub fn duration_to_u32_secs(d: Duration) -> (r: u32)
    ensures
        r == clamp_secs(crate::forward_policies::secs_of(d)),
{
    let s = duration_whole_secs(&d);
    secs_to_u32_clamped(s)
}

} // verus!
