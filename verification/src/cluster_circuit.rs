//! A per-upstream circuit breaker shared across a cluster.
//!
//! Each node counts consecutive failures per upstream address and opens the
//! circuit for `open_ms` once a streak reaches the threshold.  When the open
//! window has passed, one probe request is let through; further probes wait
//! `half_open_probe_interval_ms`.  Nodes gossip their open windows; an
//! address that at least `peer_open_quorum` live peers report open is treated
//! as open locally too.
//!
//! Time is an argument (`now`, in milliseconds since the Unix epoch) of every
//! `*_at` operation; the operations without the suffix read the clock.
//! Addresses are keyed by their text form (`ip:port`).
use vstd::prelude::*;
use std::time::{Duration, SystemTime, UNIX_EPOCH};
use crate::forward_policies::duration_from_millis;
use crate::keyed::{
    distinct, find, has_key, kview, lemma_find_absent, lemma_find_at, lemma_find_some,
    lemma_retain, lemma_upsert, lookup, position, retain, upsert, upsert_entry,
};

verus! {

/// Settings of the cluster circuit breaker.
#[derive(Clone, Debug)]
pub struct ClusterCircuitConfig {
    pub enabled: bool,
    pub fail_streak_threshold: u32,
    pub open_ms: u64,
    pub half_open_probe_interval_ms: u64,
    pub peer_sync_interval_ms: u64,
    pub peer_ttl_ms: u64,
    pub peer_open_quorum: usize,
}

impl Default for ClusterCircuitConfig {
    fn default() -> (r: Self)
        ensures
            r.enabled,
            r.fail_streak_threshold == 8,
            r.open_ms == 3_000,
            r.half_open_probe_interval_ms == 200,
            r.peer_sync_interval_ms == 1_000,
            r.peer_ttl_ms == 5_000,
            r.peer_open_quorum == 1,
    {
        ClusterCircuitConfig {
            enabled: true,
            fail_streak_threshold: 8,
            open_ms: 3_000,
            half_open_probe_interval_ms: 200,
            peer_sync_interval_ms: 1_000,
            peer_ttl_ms: 5_000,
            peer_open_quorum: 1,
        }
    }
}

impl ClusterCircuitConfig {
    /// The settings the gateway runs the circuit with, from the configured
    /// cluster-circuit and control-plane values: enabled, every count and
    /// interval at least 1, peers synced no more often than every 200 ms,
    /// and a peer forgotten after four of its timeouts (at least 1 s).
    pub fn from_settings(
        failure_threshold: u32,
        circuit_open_ms: u64,
        half_open_probe_interval_ms: u64,
        pull_interval_ms: u64,
        peer_timeout_ms: u64,
        quorum: usize,
    ) -> (r: Self)
        ensures
            r.enabled,
            r.fail_streak_threshold == if failure_threshold >= 1 { failure_threshold } else { 1 },
            r.open_ms == max_u64(circuit_open_ms, 1),
            r.half_open_probe_interval_ms == max_u64(half_open_probe_interval_ms, 1),
            r.peer_sync_interval_ms == max_u64(pull_interval_ms, 200),
            r.peer_ttl_ms == max_u64(
                if peer_timeout_ms * 4 > u64::MAX { u64::MAX } else { (peer_timeout_ms * 4) as u64 },
                1_000,
            ),
            r.peer_open_quorum == if quorum >= 1 { quorum } else { 1 },
    {
        let ttl: u64 = if peer_timeout_ms <= u64::MAX / 4 { peer_timeout_ms * 4 } else { u64::MAX };
        ClusterCircuitConfig {
            enabled: true,
            fail_streak_threshold: if failure_threshold >= 1 { failure_threshold } else { 1 },
            open_ms: if circuit_open_ms >= 1 { circuit_open_ms } else { 1 },
            half_open_probe_interval_ms: if half_open_probe_interval_ms >= 1 { half_open_probe_interval_ms } else { 1 },
            peer_sync_interval_ms: if pull_interval_ms >= 200 { pull_interval_ms } else { 200 },
            peer_ttl_ms: if ttl >= 1_000 { ttl } else { 1_000 },
            peer_open_quorum: if quorum >= 1 { quorum } else { 1 },
        }
    }
}

/// What one node tells its peers: for each address it holds open, the time
/// until which it does.
#[derive(Debug)]
pub struct NodeCircuitSnapshot {
    pub node_id: String,
    pub ts_ms: u64,
    pub open_until_ms: Vec<(String, u64)>,
}

/// The local state kept for one upstream address.
#[derive(Clone, Copy, Debug)]
pub struct LocalCircuitEntry {
    pub fail_streak: u32,
    pub open_until_ms: u64,
    pub half_open_next_probe_ms: u64,
}

/// The last snapshot received from one peer.
#[derive(Debug)]
pub struct PeerSnapshot {
    pub received_ms: u64,
    pub open_until_ms: Vec<(String, u64)>,
}

/// The cluster circuit breaker of one node.
pub struct ClusterCircuit {
    node_id: String,
    cfg: ClusterCircuitConfig,
    open_ms: u64,
    half_open_probe_interval_ms: u64,
    local: Vec<(String, LocalCircuitEntry)>,
    peers: Vec<(String, PeerSnapshot)>,
    merged_open_until: Vec<(String, u64)>,
}

/// A peer snapshot as plain values: when it arrived, and its open windows.
pub open spec fn peer_view(p: PeerSnapshot) -> (u64, Seq<(Seq<char>, u64)>) {
    (p.received_ms, kview(p.open_until_ms@))
}

pub open spec fn sat_add(a: u64, b: u64) -> u64 {
    if a + b > u64::MAX {
        u64::MAX
    } else {
        (a + b) as u64
    }
}

pub open spec fn max_u64(a: u64, b: u64) -> u64 {
    if a >= b {
        a
    } else {
        b
    }
}

pub open spec fn at_least_one(x: u64) -> u64 {
    if x == 0 {
        1
    } else {
        x
    }
}

/// The entry that starts every address.
pub open spec fn fresh_entry() -> LocalCircuitEntry {
    LocalCircuitEntry { fail_streak: 0, open_until_ms: 0, half_open_next_probe_ms: 0 }
}

/// A local entry still carries information at `now`.
pub open spec fn live(e: LocalCircuitEntry, now: u64) -> bool {
    e.open_until_ms > now || e.fail_streak > 0 || e.half_open_next_probe_ms > now
}

pub open spec fn live_at(now: u64) -> spec_fn(LocalCircuitEntry) -> bool {
    |e: LocalCircuitEntry| live(e, now)
}

/// The time until which an entry keeps its address closed to traffic.
pub open spec fn horizon(e: LocalCircuitEntry) -> u64 {
    max_u64(e.open_until_ms, e.half_open_next_probe_ms)
}

/// A peer snapshot received at `p.0` is still trusted at `now`.
pub open spec fn fresh_at(ttl: u64, now: u64) -> spec_fn((u64, Seq<(Seq<char>, u64)>)) -> bool {
    |p: (u64, Seq<(Seq<char>, u64)>)| sat_add(p.0, ttl) > now
}

/// The open windows of local entries: each address whose horizon lies after
/// `now`, with that horizon, in order.
pub open spec fn local_open(s: Seq<(Seq<char>, LocalCircuitEntry)>, now: u64) -> Seq<(Seq<char>, u64)>
    decreases s.len(),
{
    if s.len() == 0 {
        Seq::empty()
    } else if horizon(s.last().1) > now {
        local_open(s.drop_last(), now).push((s.last().0, horizon(s.last().1)))
    } else {
        local_open(s.drop_last(), now)
    }
}

/// How many of the windows `es` hold `k` open after `now`, and the latest of
/// those windows (0 when none does).
pub open spec fn entry_votes(es: Seq<(Seq<char>, u64)>, k: Seq<char>, now: u64) -> (nat, u64)
    decreases es.len(),
{
    if es.len() == 0 {
        (0, 0)
    } else {
        let r = entry_votes(es.drop_last(), k, now);
        if es.last().0 == k && es.last().1 > now {
            (r.0 + 1, max_u64(r.1, es.last().1))
        } else {
            r
        }
    }
}

/// The votes of all the peer snapshots `ps` for `k`.
pub open spec fn peer_votes(ps: Seq<(Seq<char>, (u64, Seq<(Seq<char>, u64)>))>, k: Seq<char>, now: u64) -> (nat, u64)
    decreases ps.len(),
{
    if ps.len() == 0 {
        (0, 0)
    } else {
        let r = peer_votes(ps.drop_last(), k, now);
        let e = entry_votes(ps.last().1.1, k, now);
        (r.0 + e.0, max_u64(r.1, e.1))
    }
}

/// The open window of `k` from the local entries.
pub open spec fn local_part(local: Seq<(Seq<char>, LocalCircuitEntry)>, k: Seq<char>, now: u64) -> Option<u64> {
    match find(local, k) {
        Some(e) => if horizon(e) > now {
            Some(horizon(e))
        } else {
            None
        },
        None => None,
    }
}

/// The open window of `k` that a quorum of peers reports.
pub open spec fn peer_part(
    peers: Seq<(Seq<char>, (u64, Seq<(Seq<char>, u64)>))>,
    quorum: usize,
    k: Seq<char>,
    now: u64,
) -> Option<u64> {
    let v = peer_votes(peers, k, now);
    if v.0 >= quorum && v.0 >= 1 {
        Some(v.1)
    } else {
        None
    }
}

pub open spec fn join_windows(a: Option<u64>, b: Option<u64>) -> Option<u64> {
    match (a, b) {
        (Some(x), Some(y)) => Some(max_u64(x, y)),
        (Some(x), None) => Some(x),
        (None, y) => y,
    }
}

/// The merged open window of `k`: the later of the local one and the one a
/// peer quorum reports.
pub open spec fn merged_until(
    local: Seq<(Seq<char>, LocalCircuitEntry)>,
    peers: Seq<(Seq<char>, (u64, Seq<(Seq<char>, u64)>))>,
    quorum: usize,
    k: Seq<char>,
    now: u64,
) -> Option<u64> {
    join_windows(local_part(local, k, now), peer_part(peers, quorum, k, now))
}

/// The vote tally kept for one address while counting: absent when no window
/// counted, else the count (saturating) and the latest window.
pub open spec fn vote_cell(v: (nat, u64)) -> Option<(usize, u64)> {
    if v.0 == 0 {
        None
    } else if v.0 > usize::MAX {
        Some((usize::MAX, v.1))
    } else {
        Some((v.0 as usize, v.1))
    }
}

/// The window a tally list grants `k` under quorum `q`.
pub open spec fn tally_part(vs: Seq<(Seq<char>, (usize, u64))>, q: usize, k: Seq<char>) -> Option<u64> {
    match find(vs, k) {
        Some(cm) => if cm.0 >= q {
            Some(cm.1)
        } else {
            None
        },
        None => None,
    }
}

pub proof fn lemma_entry_votes_zero(es: Seq<(Seq<char>, u64)>, k: Seq<char>, now: u64)
    ensures
        entry_votes(es, k, now).0 == 0 ==> entry_votes(es, k, now).1 == 0,
        entry_votes(es, k, now).0 > 0 ==> entry_votes(es, k, now).1 > now,
    decreases es.len(),
{
    if es.len() > 0 {
        lemma_entry_votes_zero(es.drop_last(), k, now);
    }
}

pub proof fn lemma_peer_votes_zero(
    ps: Seq<(Seq<char>, (u64, Seq<(Seq<char>, u64)>))>,
    k: Seq<char>,
    now: u64,
)
    ensures
        peer_votes(ps, k, now).0 == 0 ==> peer_votes(ps, k, now).1 == 0,
        peer_votes(ps, k, now).0 > 0 ==> peer_votes(ps, k, now).1 > now,
    decreases ps.len(),
{
    if ps.len() > 0 {
        lemma_peer_votes_zero(ps.drop_last(), k, now);
        lemma_entry_votes_zero(ps.last().1.1, k, now);
    }
}

/// The open windows of distinct local entries, found by key.
pub proof fn lemma_local_open(s: Seq<(Seq<char>, LocalCircuitEntry)>, now: u64)
    requires
        distinct(s),
    ensures
        distinct(local_open(s, now)),
        forall|k: Seq<char>| #[trigger] find(local_open(s, now), k) == local_part(s, k, now),
        forall|k: Seq<char>| #[trigger] has_key(local_open(s, now), k) ==> has_key(s, k),
    decreases s.len(),
{
    if s.len() > 0 {
        let d = s.drop_last();
        assert(distinct(d)) by {
            assert forall|a: int, b: int| 0 <= a < b < d.len() implies #[trigger] d[a].0 != #[trigger] d[b].0 by {
                assert(d[a] == s[a]);
                assert(d[b] == s[b]);
            }
        }
        lemma_local_open(d, now);
        let last = s.last();
        assert(!has_key(d, last.0)) by {
            if has_key(d, last.0) {
                let i = choose|i: int| 0 <= i < d.len() && #[trigger] d[i].0 == last.0;
                assert(s[i].0 == s[s.len() - 1].0);
            }
        }
        let od = local_open(d, now);
        assert(!has_key(od, last.0));
        lemma_find_absent(d, last.0);
        lemma_find_absent(od, last.0);
        let o = local_open(s, now);
        if horizon(last.1) > now {
            assert(o == od.push((last.0, horizon(last.1))));
            assert forall|a: int, b: int| 0 <= a < b < o.len() implies #[trigger] o[a].0 != #[trigger] o[b].0 by {
                assert(o[a] == od[a]);
                if b == od.len() {
                    if od[a].0 == last.0 {
                        assert(has_key(od, last.0));
                    }
                } else {
                    assert(o[b] == od[b]);
                }
            }
            assert forall|k: Seq<char>| #[trigger] find(local_open(s, now), k) == local_part(s, k, now) by {
                assert(o.drop_last() =~= od);
                assert(o.last() == (last.0, horizon(last.1)));
                if k != last.0 {
                    assert(find(o, k) == find(od, k));
                    assert(find(s, k) == find(d, k));
                }
            }
            assert forall|k: Seq<char>| #[trigger] has_key(local_open(s, now), k) implies has_key(s, k) by {
                let j = choose|j: int| 0 <= j < o.len() && #[trigger] o[j].0 == k;
                if j < od.len() {
                    assert(o[j] == od[j]);
                    assert(has_key(od, k));
                    let i = choose|i: int| 0 <= i < d.len() && #[trigger] d[i].0 == k;
                    assert(s[i] == d[i]);
                } else {
                    assert(s[s.len() - 1].0 == k);
                }
            }
        } else {
            assert forall|k: Seq<char>| #[trigger] has_key(local_open(s, now), k) implies has_key(s, k) by {
                assert(has_key(od, k));
                let i = choose|i: int| 0 <= i < d.len() && #[trigger] d[i].0 == k;
                assert(s[i] == d[i]);
            }
        }
    }
}

pub open spec fn sat_add32(a: u32, b: u32) -> u32 {
    if a + b > u32::MAX {
        u32::MAX
    } else {
        (a + b) as u32
    }
}

/// The entry kept for `k` (the fresh entry when there is none).
pub open spec fn entry_of(local: Seq<(Seq<char>, LocalCircuitEntry)>, k: Seq<char>) -> LocalCircuitEntry {
    match find(local, k) {
        Some(e) => e,
        None => fresh_entry(),
    }
}

/// A failure seen at `now` by an entry whose open window has passed: a failed
/// half-open probe re-opens at once; otherwise the streak grows, and opens the
/// circuit for `open_ms` on reaching the threshold (at least 1); a streak that
/// goes on after the probe time has come clears the probe time.
pub open spec fn failure_step(e: LocalCircuitEntry, now: u64, open_ms: u64, threshold: u32) -> LocalCircuitEntry {
    let until = sat_add(now, open_ms);
    if e.half_open_next_probe_ms > now && e.open_until_ms <= now {
        LocalCircuitEntry { fail_streak: 0, open_until_ms: until, half_open_next_probe_ms: until }
    } else {
        let streak = sat_add32(e.fail_streak, 1);
        let limit: u32 = if threshold == 0 {
            1
        } else {
            threshold
        };
        if streak >= limit {
            LocalCircuitEntry { fail_streak: 0, open_until_ms: until, half_open_next_probe_ms: until }
        } else if e.half_open_next_probe_ms > 0 && now >= e.half_open_next_probe_ms {
            LocalCircuitEntry {
                fail_streak: streak,
                open_until_ms: e.open_until_ms,
                half_open_next_probe_ms: 0,
            }
        } else {
            LocalCircuitEntry {
                fail_streak: streak,
                open_until_ms: e.open_until_ms,
                half_open_next_probe_ms: e.half_open_next_probe_ms,
            }
        }
    }
}

/// The entry after a probe is let through at `now`: the next probe waits
/// `interval` ms.
pub open spec fn probe_step(e: LocalCircuitEntry, now: u64, interval: u64) -> LocalCircuitEntry {
    LocalCircuitEntry {
        fail_streak: e.fail_streak,
        open_until_ms: e.open_until_ms,
        half_open_next_probe_ms: sat_add(now, interval),
    }
}

impl ClusterCircuit {
    pub closed spec fn node(&self) -> Seq<char> {
        self.node_id@
    }

    pub closed spec fn config(&self) -> ClusterCircuitConfig {
        self.cfg
    }

    /// The open window currently in force.
    pub closed spec fn open_window_ms(&self) -> u64 {
        self.open_ms
    }

    /// The probe interval currently in force.
    pub closed spec fn probe_interval_ms(&self) -> u64 {
        self.half_open_probe_interval_ms
    }

    pub closed spec fn local_entries(&self) -> Seq<(Seq<char>, LocalCircuitEntry)> {
        kview(self.local@)
    }

    pub closed spec fn peer_entries(&self) -> Seq<(Seq<char>, (u64, Seq<(Seq<char>, u64)>))> {
        self.peers@.map_values(|p: (String, PeerSnapshot)| (p.0@, peer_view(p.1)))
    }

    pub closed spec fn merged_entries(&self) -> Seq<(Seq<char>, u64)> {
        kview(self.merged_open_until@)
    }

    pub open spec fn wf(&self) -> bool {
        &&& distinct(self.local_entries())
        &&& distinct(self.peer_entries())
        &&& distinct(self.merged_entries())
        &&& self.open_window_ms() >= 1
        &&& self.probe_interval_ms() >= 1
    }

    pub open spec fn quorum(&self) -> usize {
        if self.config().peer_open_quorum == 0 {
            1
        } else {
            self.config().peer_open_quorum
        }
    }

    /// The merged window recorded for `k` (0 when none is).
    pub open spec fn merged_window(&self, k: Seq<char>) -> u64 {
        match find(self.merged_entries(), k) {
            Some(u) => u,
            None => 0,
        }
    }

    /// Settings and identity are the same in `self` and `other`.
    pub open spec fn same_settings(&self, other: &Self) -> bool {
        &&& self.node() == other.node()
        &&& self.config() == other.config()
        &&& self.open_window_ms() == other.open_window_ms()
        &&& self.probe_interval_ms() == other.probe_interval_ms()
    }

    /// `self` holds the state that rebuilding from `local` and `peers` at
    /// `now` gives: stale entries dropped, and each address's merged window.
    pub open spec fn rebuilt_from(
        &self,
        local: Seq<(Seq<char>, LocalCircuitEntry)>,
        peers: Seq<(Seq<char>, (u64, Seq<(Seq<char>, u64)>))>,
        now: u64,
    ) -> bool {
        &&& self.local_entries() == retain(local, live_at(now))
        &&& self.peer_entries() == retain(peers, fresh_at(self.config().peer_ttl_ms, now))
        &&& forall|k: Seq<char>|
            #[trigger] find(self.merged_entries(), k) == merged_until(
                self.local_entries(),
                self.peer_entries(),
                self.quorum(),
                k,
                now,
            )
    }

    /// Local entries, peer snapshots and merged windows are the same in
    /// `self` and `post`.
    pub open spec fn same_state(&self, post: Self) -> bool {
        &&& post.local_entries() == self.local_entries()
        &&& post.peer_entries() == self.peer_entries()
        &&& post.merged_entries() == self.merged_entries()
    }

    /// `post` is `self` after a failure of `addr` at `now`.
    pub open spec fn failure_effect(&self, post: Self, addr: Seq<char>, now: u64) -> bool {
        let e = entry_of(self.local_entries(), addr);
        &&& post.wf()
        &&& post.same_settings(self)
        &&& if !self.config().enabled || now < e.open_until_ms {
            self.same_state(post)
        } else {
            post.rebuilt_from(
                upsert(
                    self.local_entries(),
                    addr,
                    failure_step(e, now, self.open_window_ms(), self.config().fail_streak_threshold),
                ),
                self.peer_entries(),
                now,
            )
        }
    }

    /// `post` is `self` after a success of `addr` at `now`: the entry of
    /// `addr`, if any, starts over.
    pub open spec fn success_effect(&self, post: Self, addr: Seq<char>, now: u64) -> bool {
        &&& post.wf()
        &&& post.same_settings(self)
        &&& if !self.config().enabled {
            self.same_state(post)
        } else if has_key(self.local_entries(), addr) {
            post.rebuilt_from(upsert(self.local_entries(), addr, fresh_entry()), self.peer_entries(), now)
        } else {
            post.rebuilt_from(self.local_entries(), self.peer_entries(), now)
        }
    }

    /// Whether traffic to `addr` is held back at `now`.
    pub open spec fn open_result(&self, addr: Seq<char>, now: u64) -> bool {
        &&& self.config().enabled
        &&& (self.merged_window(addr) > now || match find(self.local_entries(), addr) {
            Some(e) => now < e.open_until_ms || (e.half_open_next_probe_ms > 0 && now < e.half_open_next_probe_ms),
            None => false,
        })
    }

    /// A probe of `addr` is let through at `now`: the breaker is on, no
    /// window holds it, and its probe time has come.
    pub open spec fn probe_due(&self, addr: Seq<char>, now: u64) -> bool {
        &&& self.config().enabled
        &&& self.merged_window(addr) <= now
        &&& match find(self.local_entries(), addr) {
            Some(e) => now >= e.open_until_ms && e.half_open_next_probe_ms > 0 && now >= e.half_open_next_probe_ms,
            None => false,
        }
    }

    /// `post` is `self` after asking whether `addr` is open at `now`.
    pub open spec fn check_effect(&self, post: Self, addr: Seq<char>, now: u64) -> bool {
        &&& post.wf()
        &&& post.same_settings(self)
        &&& if self.probe_due(addr, now) {
            post.rebuilt_from(
                upsert(
                    self.local_entries(),
                    addr,
                    probe_step(entry_of(self.local_entries(), addr), now, self.probe_interval_ms()),
                ),
                self.peer_entries(),
                now,
            )
        } else {
            self.same_state(post)
        }
    }

    /// `post` is `self` after taking in a snapshot from another node at `now`.
    pub open spec fn ingest_effect(&self, post: Self, snapshot: NodeCircuitSnapshot, now: u64) -> bool {
        &&& post.wf()
        &&& post.same_settings(self)
        &&& if !self.config().enabled || snapshot.node_id@.len() == 0 || snapshot.node_id@ == self.node() {
            self.same_state(post)
        } else {
            post.rebuilt_from(
                self.local_entries(),
                upsert(self.peer_entries(), snapshot.node_id@, (now, kview(snapshot.open_until_ms@))),
                now,
            )
        }
    }

    /// A new breaker for node `node_id`, with no state.
    pub fn new(node_id: String, cfg: ClusterCircuitConfig) -> (r: Self)
        ensures
            r.wf(),
            r.node() == node_id@,
            r.config() == cfg,
            r.open_window_ms() == at_least_one(cfg.open_ms),
            r.probe_interval_ms() == at_least_one(cfg.half_open_probe_interval_ms),
            r.local_entries().len() == 0,
            r.peer_entries().len() == 0,
            r.merged_entries().len() == 0,
    {
        let open_ms = if cfg.open_ms == 0 { 1 } else { cfg.open_ms };
        let probe = if cfg.half_open_probe_interval_ms == 0 { 1 } else { cfg.half_open_probe_interval_ms };
        let r = ClusterCircuit {
            node_id,
            cfg,
            open_ms,
            half_open_probe_interval_ms: probe,
            local: Vec::new(),
            peers: Vec::new(),
            merged_open_until: Vec::new(),
        };
        proof {
            assert(r.local_entries() =~= Seq::empty());
            assert(r.peer_entries() =~= Seq::empty());
            assert(r.merged_entries() =~= Seq::empty());
        }
        r
    }

    /// Whether the breaker is switched on.
    pub fn enabled(&self) -> (r: bool)
        ensures
            r == self.config().enabled,
    {
        self.cfg.enabled
    }

    /// The gossip period in milliseconds: the configured one, at least 100.
    fn gossip_interval_ms(&self) -> (r: u64)
        ensures
            r == max_u64(self.config().peer_sync_interval_ms, 100),
    {
        if self.cfg.peer_sync_interval_ms >= 100 {
            self.cfg.peer_sync_interval_ms
        } else {
            100
        }
    }

    /// How often this node sends its snapshot to its peers.
    pub fn gossip_interval(&self) -> (r: Duration)
        ensures
            r == crate::forward_policies::millis_duration(max_u64(self.config().peer_sync_interval_ms, 100)),
    {
        duration_from_millis(self.gossip_interval_ms())
    }

    /// Replaces the open window and probe interval used from now on (each at
    /// least 1 ms).  Windows already open keep their end.
    pub fn apply_hot_settings(&mut self, open_ms: u64, half_open_probe_interval_ms: u64)
        requires
            old(self).wf(),
        ensures
            final(self).wf(),
            final(self).open_window_ms() == at_least_one(open_ms),
            final(self).probe_interval_ms() == at_least_one(half_open_probe_interval_ms),
            final(self).node() == old(self).node(),
            final(self).config() == old(self).config(),
            final(self).local_entries() == old(self).local_entries(),
            final(self).peer_entries() == old(self).peer_entries(),
            final(self).merged_entries() == old(self).merged_entries(),
    {
        self.open_ms = if open_ms == 0 { 1 } else { open_ms };
        self.half_open_probe_interval_ms = if half_open_probe_interval_ms == 0 {
            1
        } else {
            half_open_probe_interval_ms
        };
    }
}

/// A copy of a peer snapshot.
fn copy_peer(p: &PeerSnapshot) -> (r: PeerSnapshot)
    ensures
        peer_view(r) == peer_view(*p),
{
    let mut out: Vec<(String, u64)> = Vec::new();
    let mut j: usize = 0;
    while j < p.open_until_ms.len()
        invariant
            j <= p.open_until_ms.len(),
            kview(out@) == kview(p.open_until_ms@).take(j as int),
        decreases p.open_until_ms.len() - j,
    {
        let ghost before = out@;
        let key = p.open_until_ms[j].0.clone();
        out.push((key, p.open_until_ms[j].1));
        proof {
            assert(out@ == before.push((key, p.open_until_ms@[j as int].1)));
            assert(kview(out@) =~= kview(before).push((key@, p.open_until_ms@[j as int].1)));
            assert(kview(out@) =~= kview(p.open_until_ms@).take(j as int + 1));
        }
        j = j + 1;
    }
    proof {
        assert(kview(p.open_until_ms@).take(j as int) =~= kview(p.open_until_ms@));
    }
    PeerSnapshot { received_ms: p.received_ms, open_until_ms: out }
}

impl ClusterCircuit {
    /// Drops the local entries that carry nothing at `now`, and returns the
    /// open windows of the rest.
    fn prune_local(&mut self, now: u64) -> (open: Vec<(String, u64)>)
        requires
            old(self).wf(),
        ensures
            final(self).wf(),
            final(self).same_settings(old(self)),
            final(self).local_entries() == retain(old(self).local_entries(), live_at(now)),
            final(self).peer_entries() == old(self).peer_entries(),
            final(self).merged_entries() == old(self).merged_entries(),
            kview(open@) == local_open(final(self).local_entries(), now),
    {
        let ghost l0 = self.local_entries();
        proof {
            lemma_retain(l0, live_at(now));
        }
        let mut kept: Vec<(String, LocalCircuitEntry)> = Vec::new();
        let mut merged: Vec<(String, u64)> = Vec::new();
        let mut i: usize = 0;
        while i < self.local.len()
            invariant
                i <= self.local.len(),
                l0 == kview(self.local@),
                kview(kept@) == retain(l0.take(i as int), live_at(now)),
                kview(merged@) == local_open(kview(kept@), now),
            decreases self.local.len() - i,
        {
            let e = self.local[i].1;
            let ghost before = kview(kept@);
            if e.open_until_ms > now || e.fail_streak > 0 || e.half_open_next_probe_ms > now {
                kept.push((self.local[i].0.clone(), e));
                let h = if e.open_until_ms >= e.half_open_next_probe_ms {
                    e.open_until_ms
                } else {
                    e.half_open_next_probe_ms
                };
                proof {
                    assert(kview(kept@) =~= before.push((l0[i as int].0, e)));
                    assert(kview(kept@).drop_last() =~= before);
                }
                if h > now {
                    merged.push((self.local[i].0.clone(), h));
                }
            }
            proof {
                assert(l0.take(i as int + 1).drop_last() =~= l0.take(i as int));
                assert(l0.take(i as int + 1).last() == l0[i as int]);
                assert(kview(merged@) =~= local_open(kview(kept@), now));
            }
            i = i + 1;
        }
        proof {
            assert(l0.take(i as int) =~= l0);
        }
        self.local = kept;
        merged
    }

    /// Drops stale local entries and peer snapshots, then recomputes the
    /// merged window of every address.
    fn rebuild(&mut self, now: u64)
        requires
            old(self).wf(),
        ensures
            final(self).wf(),
            final(self).same_settings(old(self)),
            final(self).rebuilt_from(old(self).local_entries(), old(self).peer_entries(), now),
    {
        let ghost p0 = self.peer_entries();
        let ghost ttl = self.cfg.peer_ttl_ms;
        proof {
            lemma_retain(p0, fresh_at(ttl, now));
        }
        let mut merged = self.prune_local(now);
        let ghost kl = kview(self.local@);
        proof {
            lemma_local_open(kl, now);
        }
        // Peer snapshots that have not expired.
        let mut live_peers: Vec<(String, PeerSnapshot)> = Vec::new();
        let mut i: usize = 0;
        while i < self.peers.len()
            invariant
                i <= self.peers.len(),
                p0 == self.peers@.map_values(|p: (String, PeerSnapshot)| (p.0@, peer_view(p.1))),
                live_peers@.map_values(|p: (String, PeerSnapshot)| (p.0@, peer_view(p.1)))
                    == retain(p0.take(i as int), fresh_at(ttl, now)),
                ttl == self.cfg.peer_ttl_ms,
            decreases self.peers.len() - i,
        {
            let ghost before = live_peers@.map_values(|p: (String, PeerSnapshot)| (p.0@, peer_view(p.1)));
            if self.peers[i].1.received_ms.saturating_add(self.cfg.peer_ttl_ms) > now {
                let copy = copy_peer(&self.peers[i].1);
                live_peers.push((self.peers[i].0.clone(), copy));
                proof {
                    assert(live_peers@.map_values(|p: (String, PeerSnapshot)| (p.0@, peer_view(p.1)))
                        =~= before.push(p0[i as int]));
                }
            }
            proof {
                assert(p0.take(i as int + 1).drop_last() =~= p0.take(i as int));
                assert(p0.take(i as int + 1).last() == p0[i as int]);
            }
            i = i + 1;
        }
        proof {
            assert(p0.take(i as int) =~= p0);
        }
        self.peers = live_peers;
        let ghost kp = self.peer_entries();
        // Tally, per address, how many peer windows hold it open and until when.
        let mut votes: Vec<(String, (usize, u64))> = Vec::new();
        let mut i: usize = 0;
        while i < self.peers.len()
            invariant
                i <= self.peers.len(),
                kp == self.peer_entries(),
                distinct(kview(votes@)),
                forall|k: Seq<char>|
                    #[trigger] find(kview(votes@), k) == vote_cell(peer_votes(kp.take(i as int), k, now)),
            decreases self.peers.len() - i,
        {
            let ghost es = kp[i as int].1.1;
            let ghost pre = kp.take(i as int);
            proof {
                assert(es == kview(self.peers@[i as int].1.open_until_ms@));
            }
            let mut j: usize = 0;
            while j < self.peers[i].1.open_until_ms.len()
                invariant
                    i < self.peers.len(),
                    j <= self.peers@[i as int].1.open_until_ms.len(),
                    es == kview(self.peers@[i as int].1.open_until_ms@),
                    distinct(kview(votes@)),
                    forall|k: Seq<char>|
                        #[trigger] find(kview(votes@), k) == vote_cell(
                            (
                                peer_votes(pre, k, now).0 + entry_votes(es.take(j as int), k, now).0,
                                max_u64(peer_votes(pre, k, now).1, entry_votes(es.take(j as int), k, now).1),
                            ),
                        ),
                decreases self.peers@[i as int].1.open_until_ms.len() - j,
            {
                let until = self.peers[i].1.open_until_ms[j].1;
                let ghost a = es[j as int].0;
                proof {
                    assert(es.take(j as int + 1).drop_last() =~= es.take(j as int));
                    assert(es.take(j as int + 1).last() == es[j as int]);
                }
                if until > now {
                    let addr = self.peers[i].1.open_until_ms[j].0.as_str();
                    let cur = lookup(&votes, addr);
                    let next = match cur {
                        Some(cm) => (cm.0.saturating_add(1), if cm.1 >= until { cm.1 } else { until }),
                        None => (1usize, until),
                    };
                    proof {
                        lemma_peer_votes_zero(pre, a, now);
                        lemma_entry_votes_zero(es.take(j as int), a, now);
                        lemma_upsert(kview(votes@), a, next);
                    }
                    upsert_entry(&mut votes, addr, next);
                }
                j = j + 1;
            }
            proof {
                assert(es.take(j as int) =~= es);
                assert(kp.take(i as int + 1).drop_last() =~= pre);
                assert(kp.take(i as int + 1).last() == kp[i as int]);
            }
            i = i + 1;
        }
        proof {
            assert(kp.take(i as int) =~= kp);
        }
        // Merge the windows that reach the quorum into the local ones.
        let quorum: usize = if self.cfg.peer_open_quorum == 0 { 1 } else { self.cfg.peer_open_quorum };
        let mut t: usize = 0;
        while t < votes.len()
            invariant
                t <= votes.len(),
                distinct(kview(votes@)),
                distinct(kview(merged@)),
                quorum >= 1,
                forall|k: Seq<char>|
                    #[trigger] find(kview(merged@), k) == join_windows(
                        local_part(kl, k, now),
                        tally_part(kview(votes@).take(t as int), quorum, k),
                    ),
            decreases votes.len() - t,
        {
            let ghost vs = kview(votes@);
            let ghost key = vs[t as int].0;
            let (count, until) = votes[t].1;
            proof {
                assert(vs.take(t as int + 1).drop_last() =~= vs.take(t as int));
                assert(vs.take(t as int + 1).last() == vs[t as int]);
                assert(!has_key(vs.take(t as int), key)) by {
                    if has_key(vs.take(t as int), key) {
                        let c = choose|c: int| 0 <= c < vs.take(t as int).len() && #[trigger] vs.take(t as int)[c].0 == key;
                        assert(vs[c].0 == key);
                    }
                }
                lemma_find_absent(vs.take(t as int), key);
            }
            if count >= quorum {
                let addr = votes[t].0.as_str();
                let cur = lookup(&merged, addr);
                let next = match cur {
                    Some(x) => if x >= until { x } else { until },
                    None => until,
                };
                proof {
                    lemma_upsert(kview(merged@), key, next);
                }
                upsert_entry(&mut merged, addr, next);
            }
            t = t + 1;
        }
        proof {
            assert(kview(votes@).take(t as int) =~= kview(votes@));
            assert forall|k: Seq<char>|
                #[trigger] tally_part(kview(votes@), quorum, k) == peer_part(kp, quorum, k, now) by {
                lemma_peer_votes_zero(kp, k, now);
            }
        }
        self.merged_open_until = merged;
    }
}

impl ClusterCircuit {
    /// Records a failed request to `addr` at `now`.
    pub fn record_failure_at(&mut self, addr: &str, now: u64)
        requires
            old(self).wf(),
        ensures
            old(self).failure_effect(*final(self), addr@, now),
    {
        if !self.cfg.enabled {
            return;
        }
        let e = match lookup(&self.local, addr) {
            Some(e) => e,
            None => LocalCircuitEntry { fail_streak: 0, open_until_ms: 0, half_open_next_probe_ms: 0 },
        };
        if now < e.open_until_ms {
            return;
        }
        let until = now.saturating_add(self.open_ms);
        let next = if e.half_open_next_probe_ms > now && e.open_until_ms <= now {
            LocalCircuitEntry { fail_streak: 0, open_until_ms: until, half_open_next_probe_ms: until }
        } else {
            let streak = e.fail_streak.saturating_add(1);
            let limit: u32 = if self.cfg.fail_streak_threshold == 0 {
                1
            } else {
                self.cfg.fail_streak_threshold
            };
            if streak >= limit {
                LocalCircuitEntry { fail_streak: 0, open_until_ms: until, half_open_next_probe_ms: until }
            } else if e.half_open_next_probe_ms > 0 && now >= e.half_open_next_probe_ms {
                LocalCircuitEntry {
                    fail_streak: streak,
                    open_until_ms: e.open_until_ms,
                    half_open_next_probe_ms: 0,
                }
            } else {
                LocalCircuitEntry {
                    fail_streak: streak,
                    open_until_ms: e.open_until_ms,
                    half_open_next_probe_ms: e.half_open_next_probe_ms,
                }
            }
        };
        upsert_entry(&mut self.local, addr, next);
        self.rebuild(now);
    }

    /// Records a successful request to `addr` at `now`.
    pub fn record_success_at(&mut self, addr: &str, now: u64)
        requires
            old(self).wf(),
        ensures
            old(self).success_effect(*final(self), addr@, now),
    {
        if !self.cfg.enabled {
            return;
        }
        let pos = position(&self.local, addr);
        if let Some(i) = pos {
            proof {
                assert(self.local_entries()[i as int].0 == addr@);
            }
            upsert_entry(
                &mut self.local,
                addr,
                LocalCircuitEntry { fail_streak: 0, open_until_ms: 0, half_open_next_probe_ms: 0 },
            );
        }
        self.rebuild(now);
    }

    /// Whether requests to `addr` are held back at `now`.  When the open
    /// window of `addr` has passed and its probe time has come, one request
    /// is let through and the next probe is scheduled.
    pub fn is_open_at(&mut self, addr: &str, now: u64) -> (r: bool)
        requires
            old(self).wf(),
        ensures
            r == old(self).open_result(addr@, now),
            old(self).check_effect(*final(self), addr@, now),
    {
        if !self.cfg.enabled {
            return false;
        }
        let merged = match lookup(&self.merged_open_until, addr) {
            Some(u) => u,
            None => 0,
        };
        if merged > now {
            return true;
        }
        match lookup(&self.local, addr) {
            None => false,
            Some(e) => {
                if now < e.open_until_ms {
                    true
                } else if e.half_open_next_probe_ms > 0 {
                    if now < e.half_open_next_probe_ms {
                        true
                    } else {
                        let next = LocalCircuitEntry {
                            fail_streak: e.fail_streak,
                            open_until_ms: e.open_until_ms,
                            half_open_next_probe_ms: now.saturating_add(self.half_open_probe_interval_ms),
                        };
                        upsert_entry(&mut self.local, addr, next);
                        self.rebuild(now);
                        false
                    }
                } else {
                    false
                }
            },
        }
    }

    /// The snapshot of this node's open windows at `now`; stale local entries
    /// are dropped on the way.
    pub fn local_snapshot_at(&mut self, now: u64) -> (r: NodeCircuitSnapshot)
        requires
            old(self).wf(),
        ensures
            final(self).wf(),
            final(self).same_settings(old(self)),
            final(self).local_entries() == retain(old(self).local_entries(), live_at(now)),
            final(self).peer_entries() == old(self).peer_entries(),
            final(self).merged_entries() == old(self).merged_entries(),
            r.node_id@ == old(self).node(),
            r.ts_ms == now,
            kview(r.open_until_ms@) == local_open(final(self).local_entries(), now),
    {
        let open = self.prune_local(now);
        NodeCircuitSnapshot { node_id: self.node_id.clone(), ts_ms: now, open_until_ms: open }
    }

    /// Takes in the snapshot of another node, received at `now`.  Snapshots
    /// of this node itself, or without a node id, are ignored.
    pub fn ingest_peer_snapshot_at(&mut self, snapshot: NodeCircuitSnapshot, now: u64)
        requires
            old(self).wf(),
        ensures
            old(self).ingest_effect(*final(self), snapshot, now),
    {
        if !self.cfg.enabled {
            return;
        }
        if snapshot.node_id.as_str().is_empty() || crate::text::str_eq(
            snapshot.node_id.as_str(),
            self.node_id.as_str(),
        ) {
            return;
        }
        let ghost ps = self.peer_entries();
        let ghost id = snapshot.node_id@;
        let ghost pv = (now, kview(snapshot.open_until_ms@));
        proof {
            lemma_upsert(ps, id, pv);
        }
        let peer = PeerSnapshot { received_ms: now, open_until_ms: snapshot.open_until_ms };
        match position(&self.peers, snapshot.node_id.as_str()) {
            Some(i) => {
                let key = self.peers[i].0.clone();
                self.peers.set(i, (key, peer));
                proof {
                    assert(ps[i as int].0 == id);
                    let c = choose|c: int| 0 <= c < ps.len() && #[trigger] ps[c].0 == id;
                    if c != i {
                        assert(ps[c].0 != ps[i as int].0);
                    }
                    assert(self.peer_entries() =~= ps.update(i as int, (id, pv)));
                }
            },
            None => {
                proof {
                    if has_key(ps, id) {
                        let c = choose|c: int| 0 <= c < ps.len() && #[trigger] ps[c].0 == id;
                        assert(kview(self.peers@)[c].0 == id);
                    }
                }
                self.peers.push((snapshot.node_id, peer));
                proof {
                    assert(self.peer_entries() =~= ps.push((id, pv)));
                }
            },
        }
        self.rebuild(now);
    }
}

/// Laws of the breaker.
impl ClusterCircuit {
    /// A failure that brings the streak to the threshold opens the circuit
    /// for the open window in force, from `now` on.
    pub proof fn lemma_threshold_failure_opens(self, post: Self, addr: Seq<char>, now: u64)
        requires
            self.wf(),
            self.config().enabled,
            self.failure_effect(post, addr, now),
            now >= entry_of(self.local_entries(), addr).open_until_ms,
            sat_add32(entry_of(self.local_entries(), addr).fail_streak, 1)
                >= at_least_one(self.config().fail_streak_threshold as u64),
            now < u64::MAX,
        ensures
            find(post.local_entries(), addr) matches Some(e) && e.open_until_ms == sat_add(
                now,
                self.open_window_ms(),
            ),
            post.open_result(addr, now),
    {
        let e = entry_of(self.local_entries(), addr);
        let e2 = failure_step(e, now, self.open_window_ms(), self.config().fail_streak_threshold);
        let u = upsert(self.local_entries(), addr, e2);
        lemma_upsert(self.local_entries(), addr, e2);
        lemma_retain(u, live_at(now));
        assert(e2.open_until_ms == sat_add(now, self.open_window_ms()));
        assert(live(e2, now));
    }

    /// A failed half-open probe re-opens the circuit at once.
    pub proof fn lemma_failed_probe_reopens(self, post: Self, addr: Seq<char>, now: u64)
        requires
            self.wf(),
            self.config().enabled,
            self.failure_effect(post, addr, now),
            entry_of(self.local_entries(), addr).half_open_next_probe_ms > now,
            entry_of(self.local_entries(), addr).open_until_ms <= now,
            now < u64::MAX,
        ensures
            find(post.local_entries(), addr) matches Some(e) && e.open_until_ms == sat_add(
                now,
                self.open_window_ms(),
            ) && e.fail_streak == 0,
            post.open_result(addr, now),
    {
        let e = entry_of(self.local_entries(), addr);
        let e2 = failure_step(e, now, self.open_window_ms(), self.config().fail_streak_threshold);
        let u = upsert(self.local_entries(), addr, e2);
        lemma_upsert(self.local_entries(), addr, e2);
        lemma_retain(u, live_at(now));
        assert(live(e2, now));
    }

    /// When the open window has passed, the first check lets one probe
    /// through and the checks that follow at the same time hold traffic back.
    pub proof fn lemma_probe_throttled(self, post: Self, addr: Seq<char>, now: u64)
        requires
            self.wf(),
            self.probe_due(addr, now),
            self.check_effect(post, addr, now),
            now < u64::MAX,
        ensures
            !self.open_result(addr, now),
            post.open_result(addr, now),
    {
        let e = entry_of(self.local_entries(), addr);
        let e2 = probe_step(e, now, self.probe_interval_ms());
        let u = upsert(self.local_entries(), addr, e2);
        lemma_upsert(self.local_entries(), addr, e2);
        lemma_retain(u, live_at(now));
        assert(live(e2, now));
    }

    /// After a success, `addr` is open only if a peer quorum reports it open.
    pub proof fn lemma_success_closes(self, post: Self, addr: Seq<char>, now: u64)
        requires
            self.wf(),
            self.config().enabled,
            self.success_effect(post, addr, now),
            peer_votes(post.peer_entries(), addr, now).0 < self.quorum(),
        ensures
            !post.open_result(addr, now),
    {
        let l = self.local_entries();
        if has_key(l, addr) {
            let u = upsert(l, addr, fresh_entry());
            lemma_upsert(l, addr, fresh_entry());
            lemma_retain(u, live_at(now));
        } else {
            lemma_find_some(l, addr);
            lemma_retain(l, live_at(now));
        }
        assert(find(post.local_entries(), addr) is None);
        assert(find(post.merged_entries(), addr) is None);
    }

    /// An address that a quorum of fresh peers reports open is open.
    pub proof fn lemma_peer_quorum_opens(
        self,
        local: Seq<(Seq<char>, LocalCircuitEntry)>,
        peers: Seq<(Seq<char>, (u64, Seq<(Seq<char>, u64)>))>,
        addr: Seq<char>,
        now: u64,
    )
        requires
            self.wf(),
            self.config().enabled,
            self.rebuilt_from(local, peers, now),
            peer_votes(self.peer_entries(), addr, now).0 >= self.quorum(),
        ensures
            self.open_result(addr, now),
    {
        lemma_peer_votes_zero(self.peer_entries(), addr, now);
        assert(find(self.merged_entries(), addr) == merged_until(
            self.local_entries(),
            self.peer_entries(),
            self.quorum(),
            addr,
            now,
        ));
    }
}

/// A reading of the system clock, opaque here.
#[verifier::external_type_specification]
#[verifier::external_body]
pub struct ExSystemTime(SystemTime);

/// The system clock.
#[verifier::external_body]
fn system_now() -> SystemTime {
    SystemTime::now()
}

/// How long after the Unix epoch `t` lies; `None` when it lies before.
#[verifier::external_body]
fn since_unix_epoch(t: &SystemTime) -> Option<Duration> {
    match t.duration_since(UNIX_EPOCH) {
        Ok(d) => Some(d),
        Err(_) => None,
    }
}

/// The whole milliseconds of `d`.
#[verifier::external_body]
fn whole_millis(d: &Duration) -> u128 {
    d.as_millis()
}

/// Milliseconds since the Unix epoch by the system clock (0 before the
/// epoch, `u64::MAX` past its range).
pub fn now_ms() -> u64 {
    let t = system_now();
    match since_unix_epoch(&t) {
        Some(d) => {
            let ms = whole_millis(&d);
            if ms > u64::MAX as u128 {
                u64::MAX
            } else {
                ms as u64
            }
        },
        None => 0,
    }
}

impl ClusterCircuit {
    /// The snapshot of this node's open windows, by the system clock.
    pub fn local_snapshot(&mut self) -> (r: NodeCircuitSnapshot)
        requires
            old(self).wf(),
        ensures
            final(self).wf(),
            final(self).same_settings(old(self)),
            final(self).local_entries() == retain(old(self).local_entries(), live_at(r.ts_ms)),
            final(self).peer_entries() == old(self).peer_entries(),
            final(self).merged_entries() == old(self).merged_entries(),
            r.node_id@ == old(self).node(),
            kview(r.open_until_ms@) == local_open(final(self).local_entries(), r.ts_ms),
    {
        let now = now_ms();
        self.local_snapshot_at(now)
    }

    /// Takes in the snapshot of another node, received now.
    pub fn ingest_peer_snapshot(&mut self, snapshot: NodeCircuitSnapshot)
        requires
            old(self).wf(),
        ensures
            exists|now: u64| old(self).ingest_effect(*final(self), snapshot, now),
    {
        let now = now_ms();
        self.ingest_peer_snapshot_at(snapshot, now);
    }

    /// Records a failed request to `addr`, now.
    pub fn record_failure(&mut self, addr: &str)
        requires
            old(self).wf(),
        ensures
            exists|now: u64| old(self).failure_effect(*final(self), addr@, now),
    {
        let now = now_ms();
        self.record_failure_at(addr, now);
    }

    /// Records a successful request to `addr`, now.
    pub fn record_success(&mut self, addr: &str)
        requires
            old(self).wf(),
        ensures
            exists|now: u64| old(self).success_effect(*final(self), addr@, now),
    {
        let now = now_ms();
        self.record_success_at(addr, now);
    }

    /// Whether requests to `addr` are held back now.
    pub fn is_open(&mut self, addr: &str) -> (r: bool)
        requires
            old(self).wf(),
        ensures
            exists|now: u64|
                r == old(self).open_result(addr@, now) && old(self).check_effect(*final(self), addr@, now),
    {
        let now = now_ms();
        self.is_open_at(addr, now)
    }
}

} // verus!
