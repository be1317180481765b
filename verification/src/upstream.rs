use vstd::prelude::*;
use std::time::Duration;
use crate::text::{append_decimal, dec_chars, str_eq, utf8};
use vstd::string::StringSliceAdditionalSpecFns;

verus! {

/// What `Duration::from_secs` gives for `secs`: a duration of exactly
/// that many whole seconds.
pub uninterp spec fn secs_duration(secs: u64) -> Duration;

/// A duration of `secs` seconds (`Duration::from_secs`, which cannot fail;
/// the result is named, not modelled): `secs` whole seconds, `secs` times
/// 10^9 nanoseconds.
#[verifier::external_body]
fn duration_from_secs(secs: u64) -> (r: Duration)
    ensures
        r == secs_duration(secs),
        crate::forward_policies::nanos_of(r) == secs * 1_000_000_000,
        crate::forward_policies::secs_of(r) == secs,
{
    Duration::from_secs(secs)
}

/// One upstream endpoint as configured.
#[derive(Clone, Debug)]
pub struct EndpointConfig {
    pub address: String,
    pub weight: u32,
}

/// Load balancing algorithm of an upstream group.
#[derive(Clone, Copy, Debug)]
pub enum LoadBalancing {
    RoundRobin,
    WeightedRoundRobin,
    LeastRequests,
    ConsistentHash,
    PeakEwma { decay: Duration },
}

/// How a group finds its endpoints.
#[derive(Clone, Debug)]
pub enum UpstreamDiscovery {
    Static { endpoints: Vec<EndpointConfig> },
    Dns { hostname: String, port: u16 },
}

/// Timeouts of an upstream group (milliseconds).
#[derive(Clone, Copy, Debug)]
pub struct UpstreamTimeouts {
    pub connect_ms: u64,
    pub request_ms: u64,
}

/// An upstream group as configured.
#[derive(Clone, Debug)]
pub struct UpstreamConfig {
    pub name: String,
    pub discovery: UpstreamDiscovery,
    pub lb: LoadBalancing,
    pub timeouts: UpstreamTimeouts,
}

/// Live state of one endpoint.
#[derive(Debug)]
pub struct EndpointState {
    pub address: String,
    pub weight: u32,
    pub healthy: bool,
    pub inflight: u64,
    /// Peak EWMA latency (microseconds).
    pub ewma_us: u64,
    /// When the EWMA was last updated (nanoseconds).
    pub last_nanos: u64,
}

impl EndpointState {
    /// A healthy endpoint with no requests in flight and a 1 ms latency
    /// estimate.
    pub fn from_cfg(cfg: &EndpointConfig) -> (r: Self)
        ensures
            r.address@ == cfg.address@,
            r.weight == cfg.weight,
            r.healthy,
            r.inflight == 0,
            r.ewma_us == 1000,
            r.last_nanos == 1,
    {
        EndpointState {
            address: cfg.address.clone(),
            weight: cfg.weight,
            healthy: true,
            inflight: 0,
            ewma_us: 1000,
            last_nanos: 1,
        }
    }
}

/// `a` sorts strictly before `b` (byte-wise lexicographic order).
pub open spec fn lex_lt(a: Seq<u8>, b: Seq<u8>) -> bool
    decreases a.len(),
{
    if a.len() == 0 {
        b.len() > 0
    } else if b.len() == 0 {
        false
    } else if a[0] != b[0] {
        a[0] < b[0]
    } else {
        lex_lt(a.drop_first(), b.drop_first())
    }
}

proof fn lemma_lex_trans(a: Seq<u8>, b: Seq<u8>, c: Seq<u8>)
    requires
        lex_lt(a, b),
        lex_lt(b, c),
    ensures
        lex_lt(a, c),
    decreases a.len(),
{
    if a.len() > 0 && b.len() > 0 && c.len() > 0 && a[0] == b[0] && b[0] == c[0] {
        lemma_lex_trans(a.drop_first(), b.drop_first(), c.drop_first());
    }
}

proof fn lemma_lex_asym(a: Seq<u8>, b: Seq<u8>)
    ensures
        !(lex_lt(a, b) && lex_lt(b, a)),
    decreases a.len(),
{
    if a.len() > 0 && b.len() > 0 && a[0] == b[0] {
        lemma_lex_asym(a.drop_first(), b.drop_first());
    }
}

proof fn lemma_lex_total(a: Seq<u8>, b: Seq<u8>)
    ensures
        lex_lt(a, b) || lex_lt(b, a) || a == b,
    decreases a.len(),
{
    if a.len() > 0 && b.len() > 0 && a[0] == b[0] {
        lemma_lex_total(a.drop_first(), b.drop_first());
        if a.drop_first() == b.drop_first() {
            assert(a =~= seq![a[0]] + a.drop_first());
            assert(b =~= seq![b[0]] + b.drop_first());
        }
    } else if a.len() == 0 && b.len() == 0 {
        assert(a =~= b);
    }
}

fn bytes_lt(a: &[u8], b: &[u8]) -> (r: bool)
    ensures
        r == lex_lt(a@, b@),
{
    let mut i: usize = 0;
    proof {
        assert(a@.skip(0) =~= a@);
        assert(b@.skip(0) =~= b@);
    }
    while i < a.len() && i < b.len() && a[i] == b[i]
        invariant
            i <= a@.len(),
            i <= b@.len(),
            lex_lt(a@, b@) == lex_lt(a@.skip(i as int), b@.skip(i as int)),
        decreases a@.len() - i,
    {
        proof {
            assert(a@.skip(i as int).drop_first() =~= a@.skip(i as int + 1));
            assert(b@.skip(i as int).drop_first() =~= b@.skip(i as int + 1));
        }
        i = i + 1;
    }
    if i == a.len() {
        i < b.len()
    } else if i == b.len() {
        false
    } else {
        a[i] < b[i]
    }
}

/// The sort key of an endpoint: its address bytes.
pub open spec fn addr_key(e: EndpointState) -> Seq<u8> {
    utf8(e.address@)
}

/// Endpoints in ascending address order.
pub open spec fn sorted_by_address(s: Seq<EndpointState>) -> bool {
    forall|i: int, j: int| 0 <= i < j < s.len() ==> !lex_lt(#[trigger] addr_key(s[j]), #[trigger] addr_key(s[i]))
}

/// A fresh endpoint: healthy, nothing in flight, 1 ms estimate.
pub open spec fn fresh(e: EndpointState) -> bool {
    e.healthy && e.inflight == 0 && e.ewma_us == 1000
}

/// The weights of the endpoints with address `a`, in order.
pub open spec fn weights_at(s: Seq<(Seq<char>, u32)>, a: Seq<char>) -> Seq<u32>
    decreases s.len(),
{
    if s.len() == 0 {
        Seq::empty()
    } else {
        let w = weights_at(s.drop_last(), a);
        if s.last().0 == a {
            w.push(s.last().1)
        } else {
            w
        }
    }
}

proof fn lemma_weights_concat(s: Seq<(Seq<char>, u32)>, t: Seq<(Seq<char>, u32)>, a: Seq<char>)
    ensures
        weights_at(s + t, a) == weights_at(s, a) + weights_at(t, a),
    decreases t.len(),
{
    if t.len() == 0 {
        assert(s + t =~= s);
        assert(weights_at(s, a) + weights_at(t, a) =~= weights_at(s, a));
    } else {
        assert((s + t).drop_last() =~= s + t.drop_last());
        lemma_weights_concat(s, t.drop_last(), a);
        if t.last().0 == a {
            assert(weights_at(s, a) + weights_at(t, a) =~= (weights_at(s, a) + weights_at(t.drop_last(), a)).push(
                t.last().1,
            ));
        }
    }
}

proof fn lemma_weights_none(t: Seq<(Seq<char>, u32)>, a: Seq<char>)
    requires
        forall|k: int| 0 <= k < t.len() ==> #[trigger] t[k].0 != a,
    ensures
        weights_at(t, a) == Seq::<u32>::empty(),
    decreases t.len(),
{
    if t.len() > 0 {
        assert(t.last() == t[t.len() - 1]);
        lemma_weights_none(t.drop_last(), a);
    }
}

proof fn lemma_weights_one(x: (Seq<char>, u32), a: Seq<char>)
    ensures
        weights_at(seq![x], a) == (if x.0 == a {
            seq![x.1]
        } else {
            Seq::<u32>::empty()
        }),
{
    assert(seq![x].drop_last() =~= Seq::<(Seq<char>, u32)>::empty());
    assert(weights_at(Seq::<(Seq<char>, u32)>::empty(), a) == Seq::<u32>::empty());
    if x.0 == a {
        assert(Seq::<u32>::empty().push(x.1) =~= seq![x.1]);
    }
}

/// Sorts endpoints by address (a stable insertion sort).
fn sort_by_address(v: Vec<EndpointState>) -> (r: Vec<EndpointState>)
    requires
        forall|i: int| 0 <= i < v@.len() ==> #[trigger] fresh(v@[i]),
    ensures
        sorted_by_address(r@),
        endpoint_pairs(r@).to_multiset() == endpoint_pairs(v@).to_multiset(),
        forall|a: Seq<char>| #[trigger] weights_at(endpoint_pairs(r@), a) == weights_at(endpoint_pairs(v@), a),
        forall|i: int| 0 <= i < r@.len() ==> #[trigger] fresh(r@[i]),
{
    let mut input = v;
    let mut out: Vec<EndpointState> = Vec::new();
    let ghost orig = input@;
    proof {
        assert(orig.skip(0) =~= orig);
        assert(endpoint_pairs(orig.take(0)) =~= endpoint_pairs(out@));
    }
    let ghost mut taken: int = 0;
    while input.len() > 0
        invariant
            sorted_by_address(out@),
            0 <= taken <= orig.len(),
            input@ == orig.skip(taken),
            forall|i: int| 0 <= i < orig.len() ==> #[trigger] fresh(orig[i]),
            forall|i: int| 0 <= i < out@.len() ==> #[trigger] fresh(out@[i]),
            endpoint_pairs(out@).to_multiset() == endpoint_pairs(orig.take(taken)).to_multiset(),
            forall|a: Seq<char>| #[trigger] weights_at(endpoint_pairs(out@), a) == weights_at(endpoint_pairs(orig.take(taken)), a),
        decreases input@.len(),
    {
        let x = input.remove(0);
        proof {
            assert(x == orig[taken]);
            assert(endpoint_pairs(orig.take(taken + 1)) =~= endpoint_pairs(orig.take(taken)).push((x.address@, x.weight)));
            endpoint_pairs(orig.take(taken)).to_multiset_ensures();
            assert(input@ =~= orig.skip(taken + 1));
            taken = taken + 1;
        }
        let mut p: usize = 0;
        while p < out.len() && !bytes_lt(x.address.as_str().as_bytes(), out[p].address.as_str().as_bytes())
            invariant
                p <= out@.len(),
                forall|k: int| 0 <= k < p ==> !lex_lt(addr_key(x), #[trigger] addr_key(out@[k])),
            decreases out@.len() - p,
        {
            p = p + 1;
        }
        let ghost before = out@;
        proof {
            if p < out@.len() {
                assert(lex_lt(addr_key(x), addr_key(out@[p as int])));
            }
        }
        out.insert(p, x);
        proof {
            before.insert_ensures(p as int, x);
            assert forall|i: int, j: int| 0 <= i < j < out@.len() implies !lex_lt(
                #[trigger] addr_key(out@[j]),
                #[trigger] addr_key(out@[i]),
            ) by {
                if i < p && j < p {
                } else if i < p && j == p {
                    lemma_lex_total(addr_key(before[i]), addr_key(x));
                } else if i < p && j > p {
                    assert(out@[j] == before[j - 1]);
                } else if i == p && j > p {
                    assert(out@[j] == before[j - 1]);
                    if (p as int) < j - 1 {
                        assert(!lex_lt(addr_key(before[j - 1]), addr_key(before[p as int])));
                        lemma_lex_total(addr_key(before[p as int]), addr_key(before[j - 1]));
                        if lex_lt(addr_key(before[p as int]), addr_key(before[j - 1])) {
                            lemma_lex_trans(addr_key(x), addr_key(before[p as int]), addr_key(before[j - 1]));
                        }
                    }
                    lemma_lex_asym(addr_key(x), addr_key(before[j - 1]));
                } else {
                    assert(out@[i] == before[i - 1]);
                    assert(out@[j] == before[j - 1]);
                }
            }
            let t = endpoint_pairs(out@);
            let px = (x.address@, x.weight);
            t.to_multiset_ensures();
            assert(t.remove(p as int) =~= endpoint_pairs(before));
            assert(t[p as int] == px);
            assert(t.to_multiset().count(px) > 0) by {
                assert(t.contains(px));
            }
            assert(t.to_multiset() =~= endpoint_pairs(before).to_multiset().insert(px));
            let pb = endpoint_pairs(before);
            assert(t =~= pb.take(p as int) + seq![px] + pb.skip(p as int));
            assert(pb =~= pb.take(p as int) + pb.skip(p as int));
            assert forall|k: int| 0 <= k < pb.skip(p as int).len() implies #[trigger] pb.skip(p as int)[k].0 != x.address@ by {
                let e = before[p + k];
                assert(pb.skip(p as int)[k] == (e.address@, e.weight));
                assert(lex_lt(addr_key(x), addr_key(before[p as int])));
                if k > 0 {
                    assert(!lex_lt(addr_key(before[p + k]), addr_key(before[p as int])));
                    lemma_lex_total(addr_key(before[p as int]), addr_key(before[p + k]));
                    if lex_lt(addr_key(before[p as int]), addr_key(before[p + k])) {
                        lemma_lex_trans(addr_key(x), addr_key(before[p as int]), addr_key(before[p + k]));
                    }
                }
                assert(lex_lt(addr_key(x), addr_key(e)));
                lemma_lex_asym(addr_key(x), addr_key(x));
            }
            assert forall|a: Seq<char>| #[trigger] weights_at(endpoint_pairs(out@), a) == weights_at(
                endpoint_pairs(orig.take(taken)),
                a,
            ) by {
                let tk = pb.take(p as int);
                let sk = pb.skip(p as int);
                lemma_weights_concat(tk + seq![px], sk, a);
                lemma_weights_concat(tk, seq![px], a);
                lemma_weights_concat(tk, sk, a);
                lemma_weights_one(px, a);
                let prev = endpoint_pairs(orig.take(taken - 1));
                assert(endpoint_pairs(orig.take(taken)) =~= prev.push(px));
                assert(endpoint_pairs(orig.take(taken)).drop_last() =~= prev);
                if a == x.address@ {
                    lemma_weights_none(sk, a);
                    assert(weights_at(tk, a) + seq![x.weight] =~= weights_at(tk, a).push(x.weight));
                    assert(weights_at(tk, a) + Seq::<u32>::empty() =~= weights_at(tk, a));
                } else {
                    assert(weights_at(tk, a) + Seq::<u32>::empty() =~= weights_at(tk, a));
                }
            }
            assert forall|i: int| 0 <= i < out@.len() implies #[trigger] fresh(out@[i]) by {
                if i < p {
                } else if i > p {
                    assert(out@[i] == before[i - 1]);
                }
            }
        }
    }
    proof {
        assert(orig.take(taken) =~= orig);
    }
    out
}

/// A live upstream group: endpoints, algorithm and round-robin counter.
#[derive(Debug)]
pub struct UpstreamGroup {
    pub name: String,
    pub algo: LoadBalancing,
    pub endpoints: Vec<EndpointState>,
    pub rr: u64,
    pub timeouts: UpstreamTimeouts,
    pub decay: Duration,
}

/// The endpoints a group is built with, before sorting.
pub open spec fn configured_endpoints(d: UpstreamDiscovery) -> Seq<(Seq<char>, u32)> {
    match d {
        UpstreamDiscovery::Static { endpoints } => config_pairs(endpoints@),
        UpstreamDiscovery::Dns { hostname, port } => seq![(hostname@ + ":"@ + dec_chars(port as nat), 1u32)],
    }
}

/// Address and weight of each configured endpoint.
pub open spec fn config_pairs(s: Seq<EndpointConfig>) -> Seq<(Seq<char>, u32)> {
    s.map_values(|e: EndpointConfig| (e.address@, e.weight))
}

/// Address and weight of each endpoint.
pub open spec fn endpoint_pairs(s: Seq<EndpointState>) -> Seq<(Seq<char>, u32)> {
    s.map_values(|e: EndpointState| (e.address@, e.weight))
}

/// `g` is the group `UpstreamGroup::from_config` builds from `cfg`: its
/// name, algorithm and timeouts, a zero round-robin counter, the decay of
/// Peak EWMA (10 s otherwise), and the configured endpoints, fresh, sorted
/// by address, those of one address in their configured order.
pub open spec fn group_built_from(g: UpstreamGroup, cfg: UpstreamConfig) -> bool {
    &&& g.name@ == cfg.name@
    &&& g.rr == 0
    &&& sorted_by_address(g.endpoints@)
    &&& endpoint_pairs(g.endpoints@).to_multiset() == configured_endpoints(cfg.discovery).to_multiset()
    &&& forall|a: Seq<char>| #[trigger] weights_at(endpoint_pairs(g.endpoints@), a) == weights_at(
        configured_endpoints(cfg.discovery),
        a,
    )
    &&& forall|i: int| 0 <= i < g.endpoints@.len() ==> #[trigger] fresh(g.endpoints@[i])
    &&& g.algo == cfg.lb
    &&& g.timeouts == cfg.timeouts
    &&& g.decay == (match cfg.lb {
        LoadBalancing::PeakEwma { decay } => decay,
        _ => secs_duration(10),
    })
}

/// Position of the last configuration named `name`, or -1.
pub open spec fn last_named(cfgs: Seq<UpstreamConfig>, name: Seq<char>) -> int
    decreases cfgs.len(),
{
    if cfgs.len() == 0 {
        -1
    } else if cfgs.last().name@ == name {
        cfgs.len() - 1
    } else {
        last_named(cfgs.drop_last(), name)
    }
}

proof fn lemma_last_named(cfgs: Seq<UpstreamConfig>, name: Seq<char>)
    ensures
        -1 <= last_named(cfgs, name) < cfgs.len(),
        last_named(cfgs, name) >= 0 ==> cfgs[last_named(cfgs, name)].name@ == name,
        last_named(cfgs, name) == -1 <==> forall|i: int| 0 <= i < cfgs.len() ==> #[trigger] cfgs[i].name@ != name,
    decreases cfgs.len(),
{
    if cfgs.len() > 0 {
        lemma_last_named(cfgs.drop_last(), name);
        if cfgs.last().name@ != name {
            assert forall|i: int| 0 <= i < cfgs.len() && #[trigger] cfgs[i].name@ == name implies last_named(cfgs, name) != -1 by {
                if i < cfgs.len() - 1 {
                    assert(cfgs.drop_last()[i] == cfgs[i]);
                }
            }
        }
    }
}

/// The named upstream groups; a name configured twice keeps its last
/// configuration.
pub struct UpstreamRegistry {
    groups: Vec<UpstreamGroup>,
}

impl UpstreamRegistry {
    /// No two groups share a name.
    pub closed spec fn wf(&self) -> bool {
        forall|i: int, j: int|
            0 <= i < j < self.groups@.len() ==> #[trigger] self.groups@[i].name@ != #[trigger] self.groups@[j].name@
    }

    /// The groups by name.
    pub closed spec fn groups(&self) -> Map<Seq<char>, UpstreamGroup> {
        Map::new(
            |n: Seq<char>| exists|i: int| 0 <= i < self.groups@.len() && #[trigger] self.groups@[i].name@ == n,
            |n: Seq<char>|
                self.groups@[choose|i: int| 0 <= i < self.groups@.len() && #[trigger] self.groups@[i].name@ == n],
        )
    }

    /// Position of the group named `name`, if any.
    fn find(&self, name: &str) -> (r: Option<usize>)
        requires
            self.wf(),
        ensures
            r matches Some(i) ==> i < self.groups@.len() && self.groups@[i as int].name@ == name@,
            r is None ==> forall|i: int| 0 <= i < self.groups@.len() ==> #[trigger] self.groups@[i].name@ != name@,
    {
        let mut i: usize = 0;
        while i < self.groups.len()
            invariant
                i <= self.groups@.len(),
                forall|k: int| 0 <= k < i ==> #[trigger] self.groups@[k].name@ != name@,
            decreases self.groups@.len() - i,
        {
            if str_eq(self.groups[i].name.as_str(), name) {
                return Some(i);
            }
            i = i + 1;
        }
        None
    }

    /// Builds every configured group; a later configuration of a name
    /// replaces an earlier one.
    pub fn build(cfgs: &[UpstreamConfig]) -> (r: Self)
        ensures
            r.wf(),
            forall|n: Seq<char>| #[trigger] r.groups().contains_key(n) <==> last_named(cfgs@, n) >= 0,
            forall|n: Seq<char>|
                #[trigger] r.groups().contains_key(n) ==> group_built_from(r.groups()[n], cfgs@[last_named(cfgs@, n)]),
    {
        let mut reg = UpstreamRegistry { groups: Vec::new() };
        let mut k: usize = 0;
        while k < cfgs.len()
            invariant
                k <= cfgs@.len(),
                reg.wf(),
                forall|i: int|
                    0 <= i < reg.groups@.len() ==> {
                        let l = last_named(cfgs@.take(k as int), #[trigger] reg.groups@[i].name@);
                        l >= 0 && group_built_from(reg.groups@[i], cfgs@.take(k as int)[l])
                    },
                forall|n: Seq<char>|
                    last_named(cfgs@.take(k as int), n) >= 0 ==> exists|i: int|
                        0 <= i < reg.groups@.len() && #[trigger] reg.groups@[i].name@ == n,
            decreases cfgs@.len() - k,
        {
            let g = UpstreamGroup::from_config(&cfgs[k]);
            let ghost before = reg.groups@;
            let ghost pre = cfgs@.take(k as int);
            let ghost now = cfgs@.take(k as int + 1);
            proof {
                assert(now.drop_last() =~= pre);
                assert(now.last() == cfgs@[k as int]);
            }
            let ghost mut pos: int = 0;
            match reg.find(cfgs[k].name.as_str()) {
                Some(j) => {
                    reg.groups.set(j, g);
                    proof {
                        pos = j as int;
                    }
                },
                None => {
                    reg.groups.push(g);
                    proof {
                        pos = before.len() as int;
                    }
                },
            }
            proof {
                let nm = cfgs@[k as int].name@;
                assert forall|i: int|
                    0 <= i < reg.groups@.len() implies {
                        let l = last_named(now, #[trigger] reg.groups@[i].name@);
                        l >= 0 && group_built_from(reg.groups@[i], now[l])
                    } by {
                    if reg.groups@[i].name@ == nm {
                        assert(last_named(now, nm) == k as int);
                    } else {
                        assert(reg.groups@[i] == before[i]);
                        assert(last_named(now, reg.groups@[i].name@) == last_named(pre, reg.groups@[i].name@));
                        lemma_last_named(pre, reg.groups@[i].name@);
                        assert(now[last_named(pre, reg.groups@[i].name@)] == pre[last_named(pre, reg.groups@[i].name@)]);
                    }
                }
                assert forall|n: Seq<char>| last_named(now, n) >= 0 implies exists|i: int|
                    0 <= i < reg.groups@.len() && #[trigger] reg.groups@[i].name@ == n by {
                    if n == nm {
                        assert(reg.groups@[pos].name@ == n);
                    } else {
                        assert(last_named(pre, n) >= 0);
                        let i = choose|i: int| 0 <= i < before.len() && #[trigger] before[i].name@ == n;
                        assert(reg.groups@[i] == before[i]);
                    }
                }
            }
            k = k + 1;
        }
        proof {
            assert(cfgs@.take(cfgs@.len() as int) =~= cfgs@);
            assert forall|n: Seq<char>| #[trigger] reg.groups().contains_key(n) <==> last_named(cfgs@, n) >= 0 by {
                if reg.groups().contains_key(n) {
                    let i = choose|i: int| 0 <= i < reg.groups@.len() && #[trigger] reg.groups@[i].name@ == n;
                }
            }
            assert forall|n: Seq<char>| #[trigger] reg.groups().contains_key(n) implies group_built_from(
                reg.groups()[n],
                cfgs@[last_named(cfgs@, n)],
            ) by {
                let i = choose|i: int| 0 <= i < reg.groups@.len() && #[trigger] reg.groups@[i].name@ == n;
                assert(reg.groups@[i].name@ == n);
            }
        }
        reg
    }

    /// The group named `name`, if there is one.
    pub fn get(&self, name: &str) -> (r: Option<&UpstreamGroup>)
        requires
            self.wf(),
        ensures
            r == (if self.groups().contains_key(name@) {
                Some(&self.groups()[name@])
            } else {
                None
            }),
    {
        match self.find(name) {
            Some(i) => {
                proof {
                    let c = choose|k: int| 0 <= k < self.groups@.len() && #[trigger] self.groups@[k].name@ == name@;
                    if c != i {
                        assert(self.groups@[c].name@ != self.groups@[i as int].name@);
                    }
                }
                Some(&self.groups[i])
            },
            None => None,
        }
    }
}

impl UpstreamGroup {
    /// Whether this group counts requests in flight.
    pub open spec fn counts_inflight(&self) -> bool {
        self.endpoints@.len() > 1 && (self.algo is LeastRequests || self.algo is PeakEwma)
    }

    /// Whether this group keeps latency estimates.
    pub open spec fn tracks_ewma(&self) -> bool {
        self.endpoints@.len() > 1 && self.algo is PeakEwma
    }

    /// Builds a group from its configuration: the configured endpoints (or,
    /// for DNS discovery, one `hostname:port` placeholder of weight 1), all
    /// healthy, sorted by address; endpoints of one address keep their
    /// configured order.
    pub fn from_config(cfg: &UpstreamConfig) -> (r: Self)
        ensures
            group_built_from(r, *cfg),
    {
        let mut eps: Vec<EndpointState> = Vec::new();
        match &cfg.discovery {
            UpstreamDiscovery::Static { endpoints } => {
                let mut i: usize = 0;
                while i < endpoints.len()
                    invariant
                        i <= endpoints@.len(),
                        endpoint_pairs(eps@) == config_pairs(endpoints@.take(i as int)),
                        forall|k: int| 0 <= k < eps@.len() ==> #[trigger] fresh(eps@[k]),
                    decreases endpoints@.len() - i,
                {
                    let ghost before = eps@;
                    let st = EndpointState::from_cfg(&endpoints[i]);
                    eps.push(st);
                    proof {
                        assert(endpoints@.take(i as int + 1) =~= endpoints@.take(i as int).push(endpoints@[i as int]));
                        assert(eps@ == before.push(st));
                        assert(endpoint_pairs(eps@) =~= endpoint_pairs(before).push((st.address@, st.weight)));
                        assert(config_pairs(endpoints@.take(i as int + 1)) =~= config_pairs(endpoints@.take(i as int)).push((endpoints@[i as int].address@, endpoints@[i as int].weight)));
                        assert(endpoint_pairs(eps@) =~= config_pairs(endpoints@.take(i as int + 1)));
                    }
                    i = i + 1;
                }
                proof {
                    assert(endpoints@.take(endpoints@.len() as int) =~= endpoints@);
                }
            },
            UpstreamDiscovery::Dns { hostname, port } => {
                let mut a = hostname.clone();
                a.append(":");
                append_decimal(&mut a, *port as u64);
                eps.push(EndpointState::from_cfg(&EndpointConfig { address: a, weight: 1 }));
                proof {
                    assert(endpoint_pairs(eps@) =~= configured_endpoints(cfg.discovery));
                }
            },
        }
        let sorted = sort_by_address(eps);
        let decay = match &cfg.lb {
            LoadBalancing::PeakEwma { decay } => *decay,
            _ => duration_from_secs(10),
        };
        UpstreamGroup {
            name: cfg.name.clone(),
            algo: cfg.lb,
            endpoints: sorted,
            rr: 0,
            timeouts: cfg.timeouts,
            decay,
        }
    }

    fn needs_inflight(&self) -> (r: bool)
        ensures
            r == self.counts_inflight(),
    {
        self.endpoints.len() > 1 && match self.algo {
            LoadBalancing::LeastRequests => true,
            LoadBalancing::PeakEwma { .. } => true,
            _ => false,
        }
    }

    fn needs_ewma(&self) -> (r: bool)
        ensures
            r == self.tracks_ewma(),
    {
        self.endpoints.len() > 1 && match self.algo {
            LoadBalancing::PeakEwma { .. } => true,
            _ => false,
        }
    }
}

/// Round robin from counter `rr`, `t` tries made of `n`: the first healthy
/// endpoint at `rr % n`, `(rr+1) % n`, ... and the counter after it.
pub open spec fn rr_scan(eps: Seq<EndpointState>, rr: u64, t: int) -> (Option<usize>, u64)
    decreases eps.len() - t,
{
    if t < 0 || t >= eps.len() || eps.len() == 0 {
        (None, rr)
    } else {
        let i = ((rr as usize) as int % (eps.len() as int)) as usize;
        if eps[i as int].healthy {
            (Some(i), rr.wrapping_add(1u64))
        } else {
            rr_scan(eps, rr.wrapping_add(1u64), t + 1)
        }
    }
}

/// No endpoint is healthy.
pub open spec fn no_healthy(eps: Seq<EndpointState>) -> bool {
    forall|j: int| 0 <= j < eps.len() ==> !#[trigger] eps[j].healthy
}

/// Sum of the weights of healthy endpoints among the first `n`.
pub open spec fn healthy_weight(eps: Seq<EndpointState>, n: int) -> int
    decreases n,
{
    if n <= 0 || n > eps.len() {
        0
    } else {
        healthy_weight(eps, n - 1) + if eps[n - 1].healthy { eps[n - 1].weight as int } else { 0 }
    }
}

/// Weighted pick: the healthy endpoint whose weight interval (in order,
/// from `i` on) holds `x`.
pub open spec fn wrr_pick(eps: Seq<EndpointState>, x: int, i: int) -> Option<usize>
    decreases eps.len() - i,
{
    if i < 0 || i >= eps.len() {
        None
    } else if !eps[i].healthy {
        wrr_pick(eps, x, i + 1)
    } else if x < eps[i].weight {
        Some(i as usize)
    } else {
        wrr_pick(eps, x - eps[i].weight, i + 1)
    }
}

/// Indices of healthy endpoints among the first `n`, in order.
pub open spec fn healthy_indices(eps: Seq<EndpointState>, n: int) -> Seq<usize>
    decreases n,
{
    if n <= 0 || n > eps.len() {
        Seq::empty()
    } else if eps[n - 1].healthy {
        healthy_indices(eps, n - 1).push((n - 1) as usize)
    } else {
        healthy_indices(eps, n - 1)
    }
}

/// Peak-EWMA score: latency estimate times (requests in flight + 1).
pub open spec fn ewma_score(e: EndpointState) -> int {
    e.ewma_us * (e.inflight + 1)
}

/// `i` is the first healthy endpoint of least `score`; `None` when none is healthy.
pub open spec fn first_min(eps: Seq<EndpointState>, score: spec_fn(EndpointState) -> int, r: Option<usize>) -> bool {
    match r {
        None => forall|j: int| 0 <= j < eps.len() ==> !#[trigger] eps[j].healthy,
        Some(i) => {
            &&& i < eps.len()
            &&& eps[i as int].healthy
            &&& forall|j: int| 0 <= j < eps.len() && #[trigger] eps[j].healthy ==> score(eps[i as int]) <= score(eps[j])
            &&& forall|j: int| 0 <= j < i && #[trigger] eps[j].healthy ==> score(eps[i as int]) < score(eps[j])
        },
    }
}

pub open spec fn inflight_score() -> spec_fn(EndpointState) -> int {
    |e: EndpointState| e.inflight as int
}

pub open spec fn ewma_score_fn() -> spec_fn(EndpointState) -> int {
    |e: EndpointState| ewma_score(e)
}

proof fn lemma_healthy_weight_bound(eps: Seq<EndpointState>, n: int)
    requires
        0 <= n <= eps.len(),
    ensures
        0 <= healthy_weight(eps, n) <= n * 0xFFFF_FFFF,
    decreases n,
{
    if n > 0 {
        lemma_healthy_weight_bound(eps, n - 1);
    }
}

proof fn lemma_wrr_total(eps: Seq<EndpointState>, x: int, i: int)
    requires
        0 <= i <= eps.len(),
        0 <= x < healthy_weight(eps, eps.len() as int) - healthy_weight(eps, i),
    ensures
        wrr_pick(eps, x, i) matches Some(k) && i <= k < eps.len() && eps[k as int].healthy && x < eps[k as int].weight
            + (healthy_weight(eps, k as int) - healthy_weight(eps, i)) || wrr_pick(eps, x, i) is Some,
    decreases eps.len() - i,
{
    lemma_weight_split(eps, i);
    if i < eps.len() {
        if !eps[i].healthy {
            lemma_wrr_total(eps, x, i + 1);
        } else if x < eps[i].weight {
        } else {
            lemma_wrr_total(eps, x - eps[i].weight, i + 1);
        }
    }
}

proof fn lemma_weight_split(eps: Seq<EndpointState>, i: int)
    requires
        0 <= i <= eps.len(),
    ensures
        i < eps.len() ==> healthy_weight(eps, i + 1) == healthy_weight(eps, i) + if eps[i].healthy {
            eps[i].weight as int
        } else {
            0
        },
        healthy_weight(eps, i) <= healthy_weight(eps, eps.len() as int),
    decreases eps.len() - i,
{
    if i < eps.len() {
        lemma_weight_split(eps, i + 1);
    }
}

/// Facts of `wrr_pick`: what it picks is a healthy endpoint of positive weight.
proof fn lemma_wrr_pick_healthy(eps: Seq<EndpointState>, x: int, i: int)
    requires
        0 <= x,
        eps.len() <= usize::MAX,
    ensures
        wrr_pick(eps, x, i) matches Some(k) ==> k < eps.len() && eps[k as int].healthy && eps[k as int].weight > 0,
    decreases eps.len() - i,
{
    if 0 <= i < eps.len() {
        if !eps[i].healthy {
            lemma_wrr_pick_healthy(eps, x, i + 1);
        } else if x < eps[i].weight {
        } else {
            lemma_wrr_pick_healthy(eps, x - eps[i].weight, i + 1);
        }
    }
}

proof fn lemma_healthy_indices(eps: Seq<EndpointState>, n: int)
    requires
        0 <= n <= eps.len(),
        eps.len() <= usize::MAX,
    ensures
        forall|k: int| 0 <= k < healthy_indices(eps, n).len() ==> #[trigger] healthy_indices(eps, n)[k] < n
            && eps[healthy_indices(eps, n)[k] as int].healthy,
        (healthy_indices(eps, n).len() == 0) <==> forall|j: int| 0 <= j < n ==> !#[trigger] eps[j].healthy,
    decreases n,
{
    if n > 0 {
        lemma_healthy_indices(eps, n - 1);
        let h0 = healthy_indices(eps, n - 1);
        let h = healthy_indices(eps, n);
        assert forall|k: int| 0 <= k < h.len() implies #[trigger] h[k] < n && eps[h[k] as int].healthy by {
            if k < h0.len() {
                assert(h[k] == h0[k]);
            }
        }
        if eps[n - 1].healthy {
            assert(h.len() > 0);
        }
    }
}

impl UpstreamGroup {
    /// The endpoint and counter after a round-robin pick.
    pub open spec fn rr_step(&self) -> (Option<usize>, u64) {
        rr_scan(self.endpoints@, self.rr, 0)
    }

    fn select_rr(&mut self) -> (r: Option<usize>)
        ensures
            (r, final(self).rr) == old(self).rr_step(),
            final(self).endpoints@ == old(self).endpoints@,
            final(self).algo == old(self).algo,
            final(self).name == old(self).name,
    {
        let n = self.endpoints.len();
        if n == 0 {
            return None;
        }
        let mut t: usize = 0;
        while t < n
            invariant
                n == self.endpoints@.len(),
                n > 0,
                t <= n,
                self.endpoints@ == old(self).endpoints@,
                self.algo == old(self).algo,
                self.name == old(self).name,
                rr_scan(self.endpoints@, self.rr, t as int) == old(self).rr_step(),
            decreases n - t,
        {
            let i = (self.rr as usize) % n;
            self.rr = self.rr.wrapping_add(1u64);
            if self.endpoints[i].healthy {
                return Some(i);
            }
            t = t + 1;
        }
        None
    }

    /// The weighted pick from counter `rr`: `rr % total` placed over the
    /// healthy endpoints' weights in order; the counter then advances (it
    /// does not when no healthy weight is left).
    pub open spec fn wrr_step(&self) -> (Option<usize>, u64) {
        let total = healthy_weight(self.endpoints@, self.endpoints@.len() as int);
        if total == 0 {
            (None, self.rr)
        } else {
            (wrr_pick(self.endpoints@, self.rr as int % total, 0), self.rr.wrapping_add(1u64))
        }
    }

    fn select_wrr(&mut self) -> (r: Option<usize>)
        requires
            old(self).endpoints@.len() <= 0xFFFF_FFFF,
        ensures
            (r, final(self).rr) == old(self).wrr_step(),
            final(self).endpoints@ == old(self).endpoints@,
            final(self).algo == old(self).algo,
            final(self).name == old(self).name,
    {
        let n = self.endpoints.len();
        let mut total: u64 = 0;
        let mut i: usize = 0;
        while i < n
            invariant
                n == self.endpoints@.len(),
                n <= 0xFFFF_FFFF,
                i <= n,
                total == healthy_weight(self.endpoints@, i as int),
            decreases n - i,
        {
            proof {
                lemma_weight_split(self.endpoints@, i as int);
                lemma_healthy_weight_bound(self.endpoints@, i as int + 1);
                assert((i as int + 1) * 0xFFFF_FFFF <= 0xFFFF_FFFF * 0xFFFF_FFFF) by (nonlinear_arith)
                    requires
                        i + 1 <= 0xFFFF_FFFF,
                ;
            }
            if self.endpoints[i].healthy {
                total = total + self.endpoints[i].weight as u64;
            }
            i = i + 1;
        }
        if total == 0 {
            return None;
        }
        let mut x = self.rr % total;
        self.rr = self.rr.wrapping_add(1u64);
        let ghost x0 = x as int;
        let mut i: usize = 0;
        proof {
            lemma_weight_split(self.endpoints@, 0);
        }
        while i < n
            invariant
                n == self.endpoints@.len(),
                i <= n,
                self.endpoints@ == old(self).endpoints@,
                self.algo == old(self).algo,
                self.name == old(self).name,
                self.rr == old(self).rr.wrapping_add(1u64),
                total as int == healthy_weight(self.endpoints@, n as int),
                x0 == old(self).rr as int % (total as int),
                total > 0,
                wrr_pick(self.endpoints@, x0, 0) == wrr_pick(self.endpoints@, x as int, i as int),
            decreases n - i,
        {
            let e = &self.endpoints[i];
            if e.healthy {
                let w = e.weight as u64;
                if x < w {
                    proof {
                        assert(wrr_pick(self.endpoints@, x as int, i as int) == Some(i));
                        let hw = healthy_weight(old(self).endpoints@, old(self).endpoints@.len() as int);
                        assert(hw == total as int);
                        assert(hw != 0);
                        assert(old(self).wrr_step().0 == wrr_pick(old(self).endpoints@, old(self).rr as int % hw, 0));
                        assert(old(self).wrr_step().1 == self.rr);
                    }
                    return Some(i);
                }
                x = x - w;
            }
            i = i + 1;
        }
        None
    }

    fn select_least(&self) -> (r: Option<usize>)
        ensures
            first_min(self.endpoints@, inflight_score(), r),
    {
        let mut best: Option<(usize, u64)> = None;
        let mut i: usize = 0;
        while i < self.endpoints.len()
            invariant
                i <= self.endpoints@.len(),
                match best {
                    None => forall|j: int| 0 <= j < i ==> !#[trigger] self.endpoints@[j].healthy,
                    Some((b, s)) => b < i && self.endpoints@[b as int].healthy && s == self.endpoints@[b as int].inflight
                        && (forall|j: int| 0 <= j < i && #[trigger] self.endpoints@[j].healthy ==> s <= self.endpoints@[j].inflight)
                        && (forall|j: int| 0 <= j < b && #[trigger] self.endpoints@[j].healthy ==> s < self.endpoints@[j].inflight),
                },
            decreases self.endpoints@.len() - i,
        {
            let e = &self.endpoints[i];
            if e.healthy {
                let inflight = e.inflight;
                match best {
                    None => {
                        best = Some((i, inflight));
                    },
                    Some((_, best_in)) => {
                        if inflight < best_in {
                            best = Some((i, inflight));
                        }
                    },
                }
            }
            i = i + 1;
        }
        match best {
            Some((b, _)) => Some(b),
            None => None,
        }
    }

    fn select_consistent(&self, hash_key: u64) -> (r: Option<usize>)
        ensures
            ({
                let h = healthy_indices(self.endpoints@, self.endpoints@.len() as int);
                r == if h.len() == 0 {
                    None::<usize>
                } else {
                    Some(h[((hash_key as usize) as int % (h.len() as int)) as int])
                }
            }),
    {
        let mut healthy: Vec<usize> = Vec::new();
        let mut i: usize = 0;
        while i < self.endpoints.len()
            invariant
                i <= self.endpoints@.len(),
                healthy@ == healthy_indices(self.endpoints@, i as int),
            decreases self.endpoints@.len() - i,
        {
            if self.endpoints[i].healthy {
                healthy.push(i);
            }
            i = i + 1;
        }
        if healthy.len() == 0 {
            return None;
        }
        Some(healthy[(hash_key as usize) % healthy.len()])
    }

    fn select_peak_ewma(&self) -> (r: Option<usize>)
        ensures
            first_min(self.endpoints@, ewma_score_fn(), r),
    {
        let mut best: Option<(usize, u128)> = None;
        let mut i: usize = 0;
        while i < self.endpoints.len()
            invariant
                i <= self.endpoints@.len(),
                match best {
                    None => forall|j: int| 0 <= j < i ==> !#[trigger] self.endpoints@[j].healthy,
                    Some((b, s)) => b < i && self.endpoints@[b as int].healthy && s == ewma_score(self.endpoints@[b as int])
                        && (forall|j: int| 0 <= j < i && #[trigger] self.endpoints@[j].healthy ==> s <= ewma_score(self.endpoints@[j]))
                        && (forall|j: int| 0 <= j < b && #[trigger] self.endpoints@[j].healthy ==> s < ewma_score(self.endpoints@[j])),
                },
            decreases self.endpoints@.len() - i,
        {
            let e = &self.endpoints[i];
            if e.healthy {
                let ewma = e.ewma_us as u128;
                let inflight = e.inflight as u128;
                proof {
                    assert(ewma * (inflight + 1) <= 0xFFFF_FFFF_FFFF_FFFFu128 * 0x1_0000_0000_0000_0000u128) by (nonlinear_arith)
                        requires
                            ewma <= 0xFFFF_FFFF_FFFF_FFFFu128,
                            inflight + 1 <= 0x1_0000_0000_0000_0000u128,
                    ;
                }
                let score = ewma * (inflight + 1);
                match best {
                    None => {
                        best = Some((i, score));
                    },
                    Some((_, s)) => {
                        if score < s {
                            best = Some((i, score));
                        }
                    },
                }
            }
            i = i + 1;
        }
        match best {
            Some((b, _)) => Some(b),
            None => None,
        }
    }

    /// The endpoint chosen for a request and the round-robin counter after
    /// it: a lone endpoint is chosen when healthy; otherwise the group's
    /// algorithm decides (the hash key serves consistent hashing).
    pub open spec fn select_step(&self, hash_key: u64) -> (Option<usize>, u64) {
        let eps = self.endpoints@;
        if eps.len() == 1 {
            (if eps[0].healthy { Some(0usize) } else { None }, self.rr)
        } else {
            match self.algo {
                LoadBalancing::RoundRobin => self.rr_step(),
                LoadBalancing::WeightedRoundRobin => self.wrr_step(),
                LoadBalancing::LeastRequests => (
                    choose|r: Option<usize>| first_min(eps, inflight_score(), r),
                    self.rr,
                ),
                LoadBalancing::ConsistentHash => {
                    let h = healthy_indices(eps, eps.len() as int);
                    (
                        if h.len() == 0 {
                            None
                        } else {
                            Some(h[((hash_key as usize) as int % (h.len() as int)) as int])
                        },
                        self.rr,
                    )
                },
                LoadBalancing::PeakEwma { .. } => (choose|r: Option<usize>| first_min(eps, ewma_score_fn(), r), self.rr),
            }
        }
    }

    /// Chooses an endpoint for a request.
    pub fn select(&mut self, hash_key: u64) -> (r: Option<usize>)
        requires
            old(self).endpoints@.len() <= 0xFFFF_FFFF,
        ensures
            (r, final(self).rr) == old(self).select_step(hash_key),
            final(self).endpoints@ == old(self).endpoints@,
            final(self).algo == old(self).algo,
            final(self).name == old(self).name,
            r matches Some(i) ==> i < old(self).endpoints@.len() && old(self).endpoints@[i as int].healthy,
            r is None ==> no_healthy(old(self).endpoints@) || old(self).endpoints@.len() != 1 && (
            old(self).algo is WeightedRoundRobin && healthy_weight(
                old(self).endpoints@,
                old(self).endpoints@.len() as int,
            ) == 0 || old(self).algo is RoundRobin && old(self).rr + old(self).endpoints@.len() > usize::MAX),
    {
        if self.endpoints.len() == 1 {
            return if self.endpoints[0].healthy { Some(0) } else { None };
        }
        match self.algo {
            LoadBalancing::RoundRobin => {
                let r = self.select_rr();
                proof {
                    assert(r == rr_scan(old(self).endpoints@, old(self).rr, 0).0);
                    lemma_rr_scan_healthy(old(self).endpoints@, old(self).rr, 0);
                    let eps = old(self).endpoints@;
                    let n = eps.len() as int;
                    if r is None && n > 0 && old(self).rr + n <= usize::MAX {
                        assert((old(self).rr + 0) as u64 == old(self).rr);
                        lemma_rr_scan_none(eps, old(self).rr, 0);
                        assert forall|j: int| 0 <= j < n implies !#[trigger] eps[j].healthy by {
                            lemma_rr_cover(old(self).rr as int, n, j);
                            let s = (j - old(self).rr as int % n + n) % n;
                            assert(0 <= s < n);
                            assert(!eps[(old(self).rr + s) % n].healthy);
                        }
                        assert(no_healthy(eps));
                    }
                    if n == 0 {
                        assert(no_healthy(eps));
                    }
                    if let Some(i) = r {
                        assert(i < old(self).endpoints@.len());
                        assert(old(self).endpoints@[i as int].healthy);
                    }
                }
                r
            },
            LoadBalancing::WeightedRoundRobin => {
                let r = self.select_wrr();
                proof {
                    let w = healthy_weight(old(self).endpoints@, old(self).endpoints@.len() as int);
                    assert(r == old(self).wrr_step().0);
                    lemma_healthy_weight_bound(old(self).endpoints@, old(self).endpoints@.len() as int);
                    if w > 0 {
                        lemma_wrr_pick_healthy(old(self).endpoints@, old(self).rr as int % w, 0);
                        assert(healthy_weight(old(self).endpoints@, 0) == 0);
                        lemma_wrr_total(old(self).endpoints@, old(self).rr as int % w, 0);
                        assert(r == wrr_pick(old(self).endpoints@, old(self).rr as int % w, 0));
                    } else {
                        assert(r is None);
                    }
                    if let Some(i) = r {
                        assert(i < old(self).endpoints@.len());
                        assert(old(self).endpoints@[i as int].healthy);
                    }
                }
                r
            },
            LoadBalancing::LeastRequests => {
                let r = self.select_least();
                proof {
                    lemma_first_min_unique(self.endpoints@, inflight_score(), r);
                    if r is None {
                        assert(first_min(old(self).endpoints@, inflight_score(), r));
                        assert(no_healthy(old(self).endpoints@));
                    }
                    if let Some(i) = r {
                        assert(i < old(self).endpoints@.len());
                        assert(old(self).endpoints@[i as int].healthy);
                    }
                }
                r
            },
            LoadBalancing::ConsistentHash => {
                let r = self.select_consistent(hash_key);
                proof {
                    lemma_healthy_indices(old(self).endpoints@, old(self).endpoints@.len() as int);
                    let h = healthy_indices(old(self).endpoints@, old(self).endpoints@.len() as int);
                    if r is None {
                        assert(h.len() == 0);
                        assert(no_healthy(old(self).endpoints@));
                    }
                    if h.len() > 0 {
                        let k = ((hash_key as usize) as int % (h.len() as int));
                        assert(h[k] < old(self).endpoints@.len());
                    }
                    if let Some(i) = r {
                        assert(i < old(self).endpoints@.len());
                        assert(old(self).endpoints@[i as int].healthy);
                    }
                }
                r
            },
            LoadBalancing::PeakEwma { .. } => {
                let r = self.select_peak_ewma();
                proof {
                    lemma_first_min_unique(self.endpoints@, ewma_score_fn(), r);
                    if r is None {
                        assert(first_min(old(self).endpoints@, ewma_score_fn(), r));
                        assert(no_healthy(old(self).endpoints@));
                    }
                    if let Some(i) = r {
                        assert(i < old(self).endpoints@.len());
                        assert(old(self).endpoints@[i as int].healthy);
                    }
                }
                r
            },
        }
    }

    /// A request was assigned to endpoint `idx`: it counts as in flight
    /// (for the algorithms that count).
    pub fn on_request_start(&mut self, idx: usize)
        requires
            old(self).counts_inflight() ==> idx < old(self).endpoints@.len(),
        ensures
            final(self).rr == old(self).rr,
            final(self).algo == old(self).algo,
            final(self).endpoints@.len() == old(self).endpoints@.len(),
            old(self).counts_inflight() ==> final(self).endpoints@ == old(self).endpoints@.update(
                idx as int,
                EndpointState { inflight: old(self).endpoints@[idx as int].inflight.wrapping_add(1u64), ..old(self).endpoints@[idx as int] },
            ),
            !old(self).counts_inflight() ==> final(self).endpoints@ == old(self).endpoints@,
    {
        if !self.needs_inflight() {
            return ;
        }
        let v = self.endpoints[idx].inflight.wrapping_add(1u64);
        self.endpoints[idx].inflight = v;
    }

    /// A request on endpoint `idx` finished: it no longer counts as in
    /// flight. Gives whether the group keeps a latency estimate to update
    /// (see `begin_ewma_update` and `store_ewma`).
    pub fn on_request_end(&mut self, idx: usize, ok: bool) -> (needs_ewma: bool)
        requires
            idx < old(self).endpoints@.len(),
        ensures
            needs_ewma == old(self).tracks_ewma(),
            final(self).rr == old(self).rr,
            final(self).algo == old(self).algo,
            final(self).endpoints@.len() == old(self).endpoints@.len(),
            old(self).counts_inflight() ==> final(self).endpoints@ == old(self).endpoints@.update(
                idx as int,
                EndpointState { inflight: old(self).endpoints@[idx as int].inflight.wrapping_sub(1u64), ..old(self).endpoints@[idx as int] },
            ),
            !old(self).counts_inflight() ==> final(self).endpoints@ == old(self).endpoints@,
    {
        if self.needs_inflight() {
            let v = self.endpoints[idx].inflight.wrapping_sub(1u64);
            self.endpoints[idx].inflight = v;
        }
        self.needs_ewma()
    }

    /// Marks the latency estimate of `idx` as updated at `now_nanos` (at
    /// least 1) and gives the estimate and the nanoseconds since its last
    /// update, from which the caller computes the new estimate.
    pub fn begin_ewma_update(&mut self, idx: usize, now_nanos: u64) -> (r: (u64, u64))
        requires
            idx < old(self).endpoints@.len(),
        ensures
            ({
                let e = old(self).endpoints@[idx as int];
                let now = if now_nanos == 0 { 1u64 } else { now_nanos };
                &&& r.0 == e.ewma_us
                &&& r.1 == now.saturating_sub(e.last_nanos)
                &&& final(self).endpoints@.len() == old(self).endpoints@.len()
                &&& final(self).endpoints@[idx as int].last_nanos == now
                &&& final(self).endpoints@[idx as int].ewma_us == e.ewma_us
                &&& final(self).endpoints@[idx as int].inflight == e.inflight
                &&& final(self).endpoints@[idx as int].healthy == e.healthy
                &&& forall|j: int| 0 <= j < old(self).endpoints@.len() && j != idx ==> #[trigger] final(self).endpoints@[j]
                    == old(self).endpoints@[j]
            }),
            final(self).rr == old(self).rr,
            final(self).algo == old(self).algo,
    {
        let now: u64 = if now_nanos == 0 { 1 } else { now_nanos };
        let last = self.endpoints[idx].last_nanos;
        self.endpoints[idx].last_nanos = now;
        (self.endpoints[idx].ewma_us, now.saturating_sub(last))
    }

    /// Stores a new latency estimate for `idx`.
    pub fn store_ewma(&mut self, idx: usize, updated: u64)
        requires
            idx < old(self).endpoints@.len(),
        ensures
            final(self).endpoints@.len() == old(self).endpoints@.len(),
            final(self).endpoints@[idx as int].ewma_us == updated,
            final(self).endpoints@[idx as int].inflight == old(self).endpoints@[idx as int].inflight,
            final(self).endpoints@[idx as int].healthy == old(self).endpoints@[idx as int].healthy,
            final(self).endpoints@[idx as int].last_nanos == old(self).endpoints@[idx as int].last_nanos,
            forall|j: int| 0 <= j < old(self).endpoints@.len() && j != idx ==> #[trigger] final(self).endpoints@[j]
                == old(self).endpoints@[j],
            final(self).rr == old(self).rr,
            final(self).algo == old(self).algo,
    {
        self.endpoints[idx].ewma_us = updated;
    }
}

/// A round-robin scan whose counter does not wrap finds no endpoint only
/// when none of the ones it tries is healthy.
proof fn lemma_rr_scan_none(eps: Seq<EndpointState>, rr0: u64, t: int)
    requires
        eps.len() > 0,
        0 <= t <= eps.len(),
        rr0 + eps.len() <= usize::MAX,
        rr_scan(eps, (rr0 + t) as u64, t).0 is None,
    ensures
        forall|s: int| t <= s < eps.len() ==> !#[trigger] eps[(rr0 + s) % (eps.len() as int)].healthy,
    decreases eps.len() - t,
{
    if t < eps.len() {
        let rr = (rr0 + t) as u64;
        assert((rr as usize) as int == rr0 + t);
        assert(rr.wrapping_add(1u64) == (rr0 + t + 1) as u64);
        lemma_rr_scan_none(eps, rr0, t + 1);
    }
}

/// A round-robin scan from counter `rr0` (that does not wrap) that picks
/// an endpoint has tried, one counter step each, the endpoints at
/// `rr0 + t`, `rr0 + t + 1`, ... up to the pick: all those before it
/// unhealthy, and the counter ends one past the pick.
proof fn lemma_rr_scan_some(eps: Seq<EndpointState>, rr0: u64, t: int)
    requires
        eps.len() > 0,
        0 <= t <= eps.len(),
        rr0 + eps.len() <= usize::MAX,
    ensures
        rr_scan(eps, (rr0 + t) as u64, t) matches (Some(i), next) ==> exists|k: int|
            #![trigger eps[(rr0 + k) % (eps.len() as int)]]
            t <= k < eps.len() && i == (rr0 + k) % (eps.len() as int) && next == rr0 + k + 1 && eps[(rr0 + k)
                % (eps.len() as int)].healthy && forall|s: int|
                t <= s < k ==> !#[trigger] eps[(rr0 + s) % (eps.len() as int)].healthy,
    decreases eps.len() - t,
{
    if t < eps.len() {
        let n = eps.len() as int;
        let rr = (rr0 + t) as u64;
        assert((rr as usize) as int == rr0 + t);
        assert(rr.wrapping_add(1u64) == (rr0 + t + 1) as u64);
        let i = (rr0 + t) % n;
        if eps[i].healthy {
            assert(rr_scan(eps, rr, t) == (Some(i as usize), (rr0 + t + 1) as u64));
        } else {
            lemma_rr_scan_some(eps, rr0, t + 1);
            if let (Some(j), next) = rr_scan(eps, rr, t) {
                let k = choose|k: int|
                    #![trigger eps[(rr0 + k) % n]]
                    t + 1 <= k < n && j == (rr0 + k) % n && next == rr0 + k + 1 && eps[(rr0 + k) % n].healthy
                        && forall|s: int| t + 1 <= s < k ==> !#[trigger] eps[(rr0 + s) % n].healthy;
                assert forall|s: int| t <= s < k implies !#[trigger] eps[(rr0 + s) % n].healthy by {
                    if s > t {
                        assert(t + 1 <= s < k);
                    }
                }
            }
        }
    }
}

/// Round robin counts every try, the successful one included: a pick
/// from counter `rr` (whose `n` tries do not wrap) goes to the endpoint
/// `k` steps on, every endpoint passed on the way being unhealthy, and
/// leaves the counter `k + 1` further on.
pub proof fn law_round_robin_counts_every_try(g: UpstreamGroup, hash_key: u64)
    requires
        g.algo is RoundRobin,
        g.endpoints@.len() >= 2,
        g.rr + g.endpoints@.len() <= usize::MAX,
    ensures
        g.select_step(hash_key) matches (Some(i), next) ==> exists|k: int|
            #![trigger g.endpoints@[(g.rr + k) % (g.endpoints@.len() as int)]]
            0 <= k < g.endpoints@.len() && i == (g.rr + k) % (g.endpoints@.len() as int) && next == g.rr + k + 1
                && g.endpoints@[(g.rr + k) % (g.endpoints@.len() as int)].healthy && forall|s: int|
                0 <= s < k ==> !#[trigger] g.endpoints@[(g.rr + s) % (g.endpoints@.len() as int)].healthy,
{
    assert((g.rr + 0) as u64 == g.rr);
    lemma_rr_scan_some(g.endpoints@, g.rr, 0);
}

/// With every endpoint healthy, round robin picks the endpoint the counter
/// points at and moves the counter on by one; so picks from counters
/// `rr + j1` and `rr + j2` (j1 < j2 < n, no wrap) differ, and `n` picks in
/// a row go to `n` different endpoints.
pub proof fn law_round_robin_rotates(g1: UpstreamGroup, g2: UpstreamGroup, rr: u64, j1: int, j2: int, hash_key: u64)
    requires
        g1.algo is RoundRobin,
        g1.endpoints@.len() >= 2,
        forall|i: int| 0 <= i < g1.endpoints@.len() ==> #[trigger] g1.endpoints@[i].healthy,
        rr + g1.endpoints@.len() <= usize::MAX,
        g2.algo == g1.algo,
        g2.endpoints@ == g1.endpoints@,
        0 <= j1 < j2 < g1.endpoints@.len(),
        g1.rr == rr + j1,
        g2.rr == rr + j2,
    ensures
        g1.select_step(hash_key) == (Some(((rr + j1) % (g1.endpoints@.len() as int)) as usize), (rr + j1 + 1) as u64),
        g2.select_step(hash_key) == (Some(((rr + j2) % (g1.endpoints@.len() as int)) as usize), (rr + j2 + 1) as u64),
        g1.select_step(hash_key).0 != g2.select_step(hash_key).0,
{
    let n = g1.endpoints@.len() as int;
    assert((g1.rr as usize) as int == rr + j1);
    assert((g2.rr as usize) as int == rr + j2);
    assert(g1.endpoints@[(rr + j1) % n].healthy);
    assert(g2.endpoints@[(rr + j2) % n].healthy);
    lemma_mod_apart(rr as int, j1, j2, n);
}

/// Counters less than `n` apart point at different endpoints.
proof fn lemma_mod_apart(rr: int, j1: int, j2: int, n: int)
    requires
        0 <= rr,
        0 <= j1 < j2 < n,
    ensures
        (rr + j1) % n != (rr + j2) % n,
{
    vstd::arithmetic::div_mod::lemma_fundamental_div_mod(rr + j1, n);
    vstd::arithmetic::div_mod::lemma_fundamental_div_mod(rr + j2, n);
    let q1 = (rr + j1) / n;
    let q2 = (rr + j2) / n;
    if (rr + j1) % n == (rr + j2) % n {
        assert(n * (q2 - q1) == j2 - j1) by (nonlinear_arith)
            requires
                rr + j1 == n * q1 + (rr + j1) % n,
                rr + j2 == n * q2 + (rr + j2) % n,
                (rr + j1) % n == (rr + j2) % n,
        ;
        assert(false) by (nonlinear_arith)
            requires
                n * (q2 - q1) == j2 - j1,
                0 < j2 - j1 < n,
        ;
    }
}

/// Every index is tried by `n` steps of round robin from any counter.
proof fn lemma_rr_cover(rr0: int, n: int, j: int)
    requires
        0 <= rr0,
        0 <= j < n,
    ensures
        (rr0 + (j - rr0 % n + n) % n) % n == j,
{
    let m = rr0 % n;
    let q = rr0 / n;
    vstd::arithmetic::div_mod::lemma_fundamental_div_mod(rr0, n);
    vstd::arithmetic::div_mod::lemma_small_mod(j as nat, n as nat);
    if j >= m {
        vstd::arithmetic::div_mod::lemma_small_mod((j - m) as nat, n as nat);
        assert((j - m + n) % n == j - m) by {
            vstd::arithmetic::div_mod::lemma_mod_multiples_vanish(1, j - m, n);
        }
        assert(rr0 + (j - m) == n * q + j);
        vstd::arithmetic::div_mod::lemma_mod_multiples_vanish(q, j, n);
    } else {
        vstd::arithmetic::div_mod::lemma_small_mod((j - m + n) as nat, n as nat);
        assert(rr0 + (j - m + n) == n * (q + 1) + j) by (nonlinear_arith)
            requires
                rr0 == n * q + m,
        ;
        vstd::arithmetic::div_mod::lemma_mod_multiples_vanish(q + 1, j, n);
    }
}

proof fn lemma_rr_scan_healthy(eps: Seq<EndpointState>, rr: u64, t: int)
    requires
        eps.len() <= usize::MAX,
    ensures
        rr_scan(eps, rr, t).0 matches Some(i) ==> i < eps.len() && eps[i as int].healthy,
    decreases eps.len() - t,
{
    if 0 <= t < eps.len() && eps.len() > 0 {
        let i = ((rr as usize) as int % (eps.len() as int)) as usize;
        if !eps[i as int].healthy {
            lemma_rr_scan_healthy(eps, rr.wrapping_add(1u64), t + 1);
        }
    }
}

proof fn lemma_first_min_unique(eps: Seq<EndpointState>, score: spec_fn(EndpointState) -> int, r: Option<usize>)
    requires
        first_min(eps, score, r),
    ensures
        (choose|x: Option<usize>| first_min(eps, score, x)) == r,
{
    let c = choose|x: Option<usize>| first_min(eps, score, x);
    assert(first_min(eps, score, c));
    match (c, r) {
        (Some(a), Some(b)) => {
            if a < b {
                assert(score(eps[b as int]) < score(eps[a as int]));
            } else if b < a {
                assert(score(eps[a as int]) < score(eps[b as int]));
            }
        },
        (None, Some(b)) => {
            assert(eps[b as int].healthy);
        },
        (Some(a), None) => {
            assert(eps[a as int].healthy);
        },
        (None, None) => {},
    }
}

/// Marking a request started and then ended on the same endpoint leaves
/// its count of requests in flight as it was.
pub proof fn lemma_start_end_inflight(n: u64)
    ensures
        n.wrapping_add(1u64).wrapping_sub(1u64) == n,
{
}

} // verus!
