//! The decisions of the control plane: who may call it, how a config push
//! to the cluster counts its peers' answers, and how a follower paces its
//! long polls.  The requests themselves are sent by the caller.
use vstd::prelude::*;

use crate::control_helpers::{escape_json, escape_str, ControlRole};
use crate::text::{append_decimal, dec_chars, str_eq, trim_str, trimmed};

verus! {

/// The default cap on a request body.
pub const DEFAULT_MAX_BODY_BYTES: usize = 16_777_216;

/// The shortest long poll a follower asks for.
pub const DEFAULT_LONGPOLL_TIMEOUT_MS: u64 = 30_000;

/// How many peers a push talks to at once unless configured.
pub const DEFAULT_PEER_CONCURRENCY: usize = 16;

/// Whether a control request is allowed: without a token only from a
/// loopback address; with one only with an `Authorization` header that,
/// trimmed, is `Bearer <token>`.
pub open spec fn may_call(peer_is_loopback: bool, auth_header: Option<Seq<char>>, token: Option<Seq<char>>) -> bool {
    match token {
        None => peer_is_loopback,
        Some(t) => match auth_header {
            None => false,
            Some(h) => trimmed(h) == "Bearer "@ + t,
        },
    }
}

pub open spec fn opt_str(o: Option<&str>) -> Option<Seq<char>> {
    match o {
        Some(s) => Some(s@),
        None => None,
    }
}

/// Checks the caller of a control request; `auth_header` is the
/// `Authorization` header as text (empty when it is not readable as text).
pub fn authorized(peer_is_loopback: bool, auth_header: Option<&str>, token: Option<&str>) -> (r: bool)
    ensures
        r == may_call(peer_is_loopback, opt_str(auth_header), opt_str(token)),
{
    let t = match token {
        None => {
            return peer_is_loopback;
        },
        Some(t) => t,
    };
    let got = match auth_header {
        None => {
            return false;
        },
        Some(h) => h,
    };
    let mut want = String::from_str("Bearer ");
    want.append(t);
    str_eq(trim_str(got), want.as_str())
}

/// The cap on a request body: the configured one (16 MiB by default), at
/// least 1024 bytes.
pub fn max_body_bytes(configured: Option<usize>) -> (r: usize)
    ensures
        r == ({
            let c = match configured {
                Some(c) => c,
                None => DEFAULT_MAX_BODY_BYTES,
            };
            if c < 1024 {
                1024
            } else {
                c
            }
        }),
{
    let c = match configured {
        Some(c) => c,
        None => DEFAULT_MAX_BODY_BYTES,
    };
    if c < 1024 {
        1024
    } else {
        c
    }
}

/// Why a cluster push is refused before anything is read: 401 without
/// credentials, 403 on a node that is not the leader.
pub fn push_admission(authorized: bool, role: ControlRole) -> (r: Option<(u16, &'static str)>)
    ensures
        !authorized ==> (r matches Some((s, m)) && s == 401 && m@ == "unauthorized"@),
        authorized && role != ControlRole::Leader ==> (r matches Some((s, m)) && s == 403 && m@
            == "cluster config push is allowed only on leader"@),
        authorized && role == ControlRole::Leader ==> r is None,
{
    if !authorized {
        return Some((401, "unauthorized"));
    }
    match role {
        ControlRole::Leader => None,
        _ => Some((403, "cluster config push is allowed only on leader")),
    }
}

/// Whether a push is left to gossip alone: gossip runs and HTTP push is not
/// kept as a fallback.  `gossip` is (running, HTTP fallback) when gossip is
/// configured.
pub fn gossip_only(gossip: Option<(bool, bool)>) -> (r: bool)
    ensures
        r == (gossip matches Some((running, fallback)) && running && !fallback),
{
    match gossip {
        Some((running, fallback)) => running && !fallback,
        None => false,
    }
}

/// The number of nodes that must accept a push: a majority of the peers
/// and this node when none is configured, else the configured number kept
/// between 1 and the node count.
pub open spec fn quorum_of(peers: nat, configured: nat) -> nat {
    let total = peers + 1;
    if configured == 0 {
        total / 2 + 1
    } else if configured < 1 {
        1
    } else if configured > total {
        total
    } else {
        configured
    }
}

pub fn push_quorum(peers: usize, configured: usize) -> (r: usize)
    ensures
        peers < usize::MAX ==> r == quorum_of(peers as nat, configured as nat),
        1 <= r,
        peers < usize::MAX ==> r <= peers + 1,
{
    let total = peers.saturating_add(1);
    if configured == 0 {
        total / 2 + 1
    } else if configured < 1 {
        1
    } else if configured > total {
        total
    } else {
        configured
    }
}

/// How many peers a push talks to at once: the configured number (16 when
/// 0), kept between 1 and 256.
pub fn push_concurrency(configured: usize) -> (r: usize)
    ensures
        r == ({
            let c = if configured == 0 { DEFAULT_PEER_CONCURRENCY } else { configured };
            if c > 256 {
                256
            } else {
                c
            }
        }),
        1 <= r <= 256,
{
    let c = if configured == 0 { DEFAULT_PEER_CONCURRENCY } else { configured };
    if c > 256 {
        256
    } else {
        c
    }
}

/// The time a peer gets to answer: the configured time, at least 100 ms.
pub fn peer_timeout_ms(configured: u64) -> (r: u64)
    ensures
        r == if configured < 100 { 100 } else { configured },
{
    if configured < 100 {
        100
    } else {
        configured
    }
}

/// The body of a JSON error answer.
pub fn json_error_body(msg: &str) -> (r: String)
    ensures
        r@ == "{\"error\":\""@ + escape_str(msg@) + "\"}\n"@,
{
    let mut s = String::from_str("{\"error\":\"");
    let e = escape_json(msg);
    s.append(e.as_str());
    s.append("\"}\n");
    s
}

/// The answer to a push left to gossip.
pub fn gossip_push_body(generation: u64) -> (r: String)
    ensures
        r@ == "{\"ok\":true,\"generation\":"@ + dec_chars(generation as nat) + ",\"scope\":\"gossip\"}\n"@,
{
    let mut s = String::from_str("{\"ok\":true,\"generation\":");
    append_decimal(&mut s, generation);
    s.append(",\"scope\":\"gossip\"}\n");
    s
}

/// One push of a config to the cluster over HTTP: the peers that accepted
/// the config in the validate phase, and how many nodes (this one
/// included) accepted and committed it.
pub struct PushRound {
    pub generation: u64,
    pub quorum: usize,
    pub validated: usize,
    pub committed: usize,
    pub ready_peers: Vec<String>,
}

pub open spec fn view_strings(v: Seq<String>) -> Seq<Seq<char>> {
    v.map_values(|s: String| s@)
}

impl PushRound {
    /// A push of config `generation` to `peers` peers; this node counts as
    /// validated and committed.
    pub fn new(generation: u64, peers: usize, configured_quorum: usize) -> (r: Self)
        ensures
            r.generation == generation,
            peers < usize::MAX ==> r.quorum == quorum_of(peers as nat, configured_quorum as nat),
            r.validated == 1,
            r.committed == 1,
            r.ready_peers@.len() == 0,
    {
        PushRound {
            generation,
            quorum: push_quorum(peers, configured_quorum),
            validated: 1,
            committed: 1,
            ready_peers: Vec::new(),
        }
    }

    /// A peer answered the validate request; one that accepted is counted
    /// and will be asked to commit.
    pub fn record_validation(&mut self, peer: String, ok: bool)
        requires
            old(self).validated < usize::MAX,
        ensures
            final(self).validated == old(self).validated + if ok { 1int } else { 0int },
            view_strings(final(self).ready_peers@) == if ok {
                view_strings(old(self).ready_peers@).push(peer@)
            } else {
                view_strings(old(self).ready_peers@)
            },
            final(self).committed == old(self).committed,
            final(self).quorum == old(self).quorum,
            final(self).generation == old(self).generation,
    {
        if ok {
            self.validated = self.validated + 1;
            let ghost before = self.ready_peers@;
            self.ready_peers.push(peer);
            proof {
                assert(view_strings(self.ready_peers@) =~= view_strings(before).push(peer@));
            }
        }
    }

    /// After the validate phase: fewer validations than the quorum refuse
    /// the push with 503 and this body; otherwise it is applied.
    pub fn validate_reply(&self) -> (r: Option<(u16, String)>)
        ensures
            self.validated >= self.quorum ==> r is None,
            self.validated < self.quorum ==> (r matches Some((status, body)) && status == 503 && body@
                == "{\"ok\":false,\"reason\":\"quorum not reached in validate phase\",\"generation\":"@ + dec_chars(
                self.generation as nat,
            ) + ",\"validated\":"@ + dec_chars(self.validated as nat) + ",\"quorum\":"@ + dec_chars(
                self.quorum as nat,
            ) + "}\n"@),
    {
        if self.validated >= self.quorum {
            return None;
        }
        let mut s = String::from_str("{\"ok\":false,\"reason\":\"quorum not reached in validate phase\",\"generation\":");
        append_decimal(&mut s, self.generation);
        s.append(",\"validated\":");
        append_decimal(&mut s, self.validated as u64);
        s.append(",\"quorum\":");
        append_decimal(&mut s, self.quorum as u64);
        s.append("}\n");
        Some((503, s))
    }

    /// A peer answered the commit request.
    pub fn record_commit(&mut self, ok: bool)
        requires
            old(self).committed < usize::MAX,
        ensures
            final(self).committed == old(self).committed + if ok { 1int } else { 0int },
            final(self).validated == old(self).validated,
            final(self).ready_peers == old(self).ready_peers,
            final(self).quorum == old(self).quorum,
            final(self).generation == old(self).generation,
    {
        if ok {
            self.committed = self.committed + 1;
        }
    }

    /// The answer once the commits are in: 200 when at least the quorum
    /// committed, else 503, with the counts.
    pub fn commit_reply(&self) -> (r: (u16, String))
        ensures
            r.0 == if self.committed >= self.quorum { 200u16 } else { 503u16 },
            r.1@ == "{\"ok\":"@ + (if self.committed >= self.quorum { "true"@ } else { "false"@ }) + ",\"generation\":"@
                + dec_chars(self.generation as nat) + ",\"validated\":"@ + dec_chars(self.validated as nat)
                + ",\"committed\":"@ + dec_chars(self.committed as nat) + ",\"quorum\":"@ + dec_chars(
                self.quorum as nat,
            ) + ",\"scope\":\"http_push\"}\n"@,
    {
        let ok = self.committed >= self.quorum;
        let mut s = String::from_str("{\"ok\":");
        if ok {
            s.append("true");
        } else {
            s.append("false");
        }
        s.append(",\"generation\":");
        append_decimal(&mut s, self.generation);
        s.append(",\"validated\":");
        append_decimal(&mut s, self.validated as u64);
        s.append(",\"committed\":");
        append_decimal(&mut s, self.committed as u64);
        s.append(",\"quorum\":");
        append_decimal(&mut s, self.quorum as u64);
        s.append(",\"scope\":\"http_push\"}\n");
        (if ok { 200 } else { 503 }, s)
    }
}

/// How a follower's long poll ended.
pub enum PollOutcome {
    /// The leader sent a config that compiled and was applied; `etag_gen`
    /// is the generation the leader announced (0 when none), `applied_gen`
    /// the one it got here.
    Applied { etag_gen: u64, applied_gen: u64 },
    /// Nothing changed while the poll waited.
    NotModified,
    /// The request, the answer or the config failed.
    Failed,
}

/// A follower's long-poll loop: the generation it has, and how long it
/// waits after a failure.
pub struct FollowerPoll {
    pub since: u64,
    pub backoff_ms: u64,
}

impl FollowerPoll {
    pub fn new(since: u64) -> (r: Self)
        ensures
            r.since == since,
            r.backoff_ms == 200,
    {
        FollowerPoll { since, backoff_ms: 200 }
    }

    /// How long the leader may hold a poll: the configured time kept
    /// between 1 ms and 120 s, and at least 30 s.
    pub fn longpoll_timeout_ms(configured: u64) -> (r: u64)
        ensures
            r == ({
                let a: u64 = if configured < 1 { 1 } else { configured };
                let b: u64 = if a > 120_000 { 120_000 } else { a };
                if b < DEFAULT_LONGPOLL_TIMEOUT_MS {
                    DEFAULT_LONGPOLL_TIMEOUT_MS
                } else {
                    b
                }
            }),
            DEFAULT_LONGPOLL_TIMEOUT_MS <= r <= 120_000,
    {
        let a = if configured < 1 { 1 } else { configured };
        let b = if a > 120_000 { 120_000 } else { a };
        if b < DEFAULT_LONGPOLL_TIMEOUT_MS {
            DEFAULT_LONGPOLL_TIMEOUT_MS
        } else {
            b
        }
    }

    /// How long one poll request may take: the long-poll time and the peer
    /// time (at least 100 ms), at most 180 s.
    pub fn request_timeout_ms(longpoll_ms: u64, peer_timeout_ms: u64) -> (r: u64)
        ensures
            r == ({
                let p = if peer_timeout_ms < 100 { 100 } else { peer_timeout_ms };
                let s = longpoll_ms + p;
                if s > 180_000 {
                    180_000
                } else {
                    s
                }
            }),
    {
        let p = if peer_timeout_ms < 100 { 100 } else { peer_timeout_ms };
        let s = longpoll_ms.saturating_add(p);
        if s > 180_000 {
            180_000
        } else {
            s
        }
    }

    /// The query of a poll: the generation held and the long-poll time.
    pub fn query(&self, longpoll_ms: u64) -> (r: String)
        ensures
            r@ == "since="@ + dec_chars(self.since as nat) + "&timeout_ms="@ + dec_chars(longpoll_ms as nat),
    {
        let mut s = String::from_str("since=");
        append_decimal(&mut s, self.since);
        s.append("&timeout_ms=");
        append_decimal(&mut s, longpoll_ms);
        s
    }

    /// The step after a poll: how many milliseconds to wait before the
    /// next one (0: at once).  An applied config moves `since` to the
    /// announced generation (or the applied one) and resets the backoff; no
    /// change resets the backoff; a failure waits the backoff, which then
    /// doubles up to 5 s.
    pub fn after_poll(&mut self, outcome: PollOutcome) -> (wait_ms: u64)
        requires
            old(self).backoff_ms <= 5_000,
        ensures
            final(self).backoff_ms <= 5_000,
            match outcome {
                PollOutcome::Applied { etag_gen, applied_gen } => {
                    &&& final(self).since == if etag_gen != 0 { etag_gen } else { applied_gen }
                    &&& final(self).backoff_ms == 200
                    &&& wait_ms == 0
                },
                PollOutcome::NotModified => {
                    &&& final(self).since == old(self).since
                    &&& final(self).backoff_ms == 200
                    &&& wait_ms == 0
                },
                PollOutcome::Failed => {
                    &&& final(self).since == old(self).since
                    &&& wait_ms == old(self).backoff_ms
                    &&& final(self).backoff_ms == if old(self).backoff_ms * 2 > 5_000 {
                        5_000
                    } else {
                        old(self).backoff_ms * 2
                    }
                },
            },
    {
        match outcome {
            PollOutcome::Applied { etag_gen, applied_gen } => {
                self.since = if etag_gen != 0 { etag_gen } else { applied_gen };
                self.backoff_ms = 200;
                0
            },
            PollOutcome::NotModified => {
                self.backoff_ms = 200;
                0
            },
            PollOutcome::Failed => {
                let w = self.backoff_ms;
                let d = self.backoff_ms * 2;
                self.backoff_ms = if d > 5_000 { 5_000 } else { d };
                w
            },
        }
    }
}

/// How loud a config audit record is.
#[derive(Clone, Copy, Debug, PartialEq, Eq, Structural)]
pub enum AuditLevel {
    Info,
    Warn,
    Error,
}

/// The level of a config audit record by its status: applied and validated
/// configs are news, refusals a warning, anything else an error.
pub fn audit_level(status: &str) -> (r: AuditLevel)
    ensures
        r == if status@ == "applied"@ || status@ == "validated"@ {
            AuditLevel::Info
        } else if status@ == "rejected_restart_required"@ || status@ == "rejected_quorum"@ || status@
            == "rejected_invalid_config"@ {
            AuditLevel::Warn
        } else {
            AuditLevel::Error
        },
{
    if str_eq(status, "applied") || str_eq(status, "validated") {
        AuditLevel::Info
    } else if str_eq(status, "rejected_restart_required") || str_eq(status, "rejected_quorum") || str_eq(
        status,
        "rejected_invalid_config",
    ) {
        AuditLevel::Warn
    } else {
        AuditLevel::Error
    }
}

/// The generation a long poll waits to move away from: the `since` query
/// parameter, else the `If-None-Match` generation, else the current one.
pub fn longpoll_since(query_since: Option<u64>, if_none_match: Option<u64>, current: u64) -> (r: u64)
    ensures
        r == match query_since {
            Some(s) => s,
            None => match if_none_match {
                Some(g) => g,
                None => current,
            },
        },
{
    match query_since {
        Some(s) => s,
        None => match if_none_match {
            Some(g) => g,
            None => current,
        },
    }
}

/// How long a long poll may wait: the `timeout_ms` query parameter, else
/// the configured time kept between 1 ms and 120 s; at least 1 ms.
pub fn longpoll_wait_ms(query_timeout_ms: Option<u64>, configured_ms: u64) -> (r: u64)
    ensures
        r == ({
            let c: u64 = if configured_ms < 1 { 1 } else if configured_ms > 120_000 { 120_000 } else { configured_ms };
            let t: u64 = match query_timeout_ms {
                Some(q) => q,
                None => c,
            };
            if t < 1 {
                1u64
            } else {
                t
            }
        }),
{
    let c = if configured_ms < 1 { 1 } else if configured_ms > 120_000 { 120_000 } else { configured_ms };
    let t = match query_timeout_ms {
        Some(q) => q,
        None => c,
    };
    if t < 1 {
        1
    } else {
        t
    }
}

/// How many workers the gateway runs: the configured number, or, where it
/// is 0, the CPU count detected by the caller (1 when none was detected or
/// it read 0).
pub fn worker_count(configured: usize, detected: Option<usize>) -> (r: usize)
    ensures
        r >= 1,
        configured > 0 ==> r == configured,
        configured == 0 ==> r == match detected {
            Some(n) if n >= 1 => n,
            _ => 1,
        },
{
    if configured > 0 {
        return configured;
    }
    match detected {
        Some(n) => if n >= 1 {
            n
        } else {
            1
        },
        None => 1,
    }
}

} // verus!
