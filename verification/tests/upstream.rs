use std::time::Duration;

use arc_gateway::forward_policies::{CompiledRetryPolicy, RetryPolicy};

use arc_gateway::upstream::{
    EndpointConfig, LoadBalancing, UpstreamConfig, UpstreamDiscovery, UpstreamGroup, UpstreamRegistry,
    UpstreamTimeouts,
};

fn static_cfg(lb: LoadBalancing) -> UpstreamConfig {
    UpstreamConfig {
        name: "api".to_string(),
        discovery: UpstreamDiscovery::Static {
            endpoints: vec![
                EndpointConfig { address: "10.0.0.2:80".to_string(), weight: 1 },
                EndpointConfig { address: "10.0.0.1:80".to_string(), weight: 3 },
            ],
        },
        lb,
        timeouts: UpstreamTimeouts { connect_ms: 250, request_ms: 5000 },
    }
}

#[test]
fn group_keeps_algorithm_timeouts_and_default_decay() {
    let g = UpstreamGroup::from_config(&static_cfg(LoadBalancing::LeastRequests));
    assert!(matches!(g.algo, LoadBalancing::LeastRequests));
    assert_eq!(g.timeouts.connect_ms, 250);
    assert_eq!(g.timeouts.request_ms, 5000);
    assert_eq!(g.decay, Duration::from_secs(10));
    assert_eq!(g.rr, 0);
    assert_eq!(g.endpoints[0].address, "10.0.0.1:80");
    assert_eq!(g.endpoints[1].address, "10.0.0.2:80");
}

#[test]
fn peak_ewma_group_takes_configured_decay() {
    let g = UpstreamGroup::from_config(&static_cfg(LoadBalancing::PeakEwma { decay: Duration::from_millis(1500) }));
    assert_eq!(g.decay, Duration::from_millis(1500));
    assert!(matches!(g.algo, LoadBalancing::PeakEwma { .. }));
}

#[test]
fn retry_policy_compiles_backoff_to_nanoseconds() {
    let p = RetryPolicy::default();
    assert_eq!(p.backoff, Duration::from_millis(50));
    let c = CompiledRetryPolicy::from_model(&p);
    assert_eq!(c.max_retries, 1);
    assert_eq!(c.backoff_ns, 50_000_000);
    assert!(c.idempotent_only);
}

#[test]
fn select_fails_only_when_nothing_can_be_picked() {
    for lb in [LoadBalancing::RoundRobin, LoadBalancing::WeightedRoundRobin, LoadBalancing::LeastRequests, LoadBalancing::ConsistentHash] {
        let mut g = UpstreamGroup::from_config(&static_cfg(lb));
        g.endpoints[0].healthy = false;
        for key in 0..4u64 {
            assert_eq!(g.select(key), Some(1));
        }
        g.endpoints[1].healthy = false;
        assert_eq!(g.select(0), None);
    }
    // weighted round robin with only weight-0 endpoints healthy picks nothing
    let mut g = UpstreamGroup::from_config(&static_cfg(LoadBalancing::WeightedRoundRobin));
    g.endpoints[0].weight = 0;
    g.endpoints[1].healthy = false;
    assert_eq!(g.select(0), None);
    // round robin whose counter wraps mid-scan can miss the healthy one:
    // from u64::MAX over three endpoints it tries 0, 0, 1
    let mut cfg = static_cfg(LoadBalancing::RoundRobin);
    cfg.discovery = UpstreamDiscovery::Static {
        endpoints: vec![
            EndpointConfig { address: "10.0.0.1:80".to_string(), weight: 1 },
            EndpointConfig { address: "10.0.0.2:80".to_string(), weight: 1 },
            EndpointConfig { address: "10.0.0.3:80".to_string(), weight: 1 },
        ],
    };
    let mut g = UpstreamGroup::from_config(&cfg);
    g.endpoints[0].healthy = false;
    g.endpoints[1].healthy = false;
    g.rr = u64::MAX;
    assert_eq!(g.select(0), None);
    g.rr = 5;
    assert_eq!(g.select(0), Some(2));
}

#[test]
fn endpoints_of_one_address_keep_their_configured_order() {
    let mut cfg = static_cfg(LoadBalancing::RoundRobin);
    cfg.discovery = UpstreamDiscovery::Static {
        endpoints: vec![
            EndpointConfig { address: "b:80".to_string(), weight: 5 },
            EndpointConfig { address: "a:80".to_string(), weight: 2 },
            EndpointConfig { address: "b:80".to_string(), weight: 1 },
            EndpointConfig { address: "a:80".to_string(), weight: 9 },
        ],
    };
    let g = UpstreamGroup::from_config(&cfg);
    let got: Vec<(&str, u32)> = g.endpoints.iter().map(|e| (e.address.as_str(), e.weight)).collect();
    assert_eq!(got, vec![("a:80", 2), ("a:80", 9), ("b:80", 5), ("b:80", 1)]);
}

#[test]
fn registry_finds_groups_by_name_and_keeps_the_last_of_a_name() {
    let mut second = static_cfg(LoadBalancing::LeastRequests);
    second.timeouts.connect_ms = 999;
    let mut other = static_cfg(LoadBalancing::RoundRobin);
    other.name = "web".to_string();
    let reg = UpstreamRegistry::build(&[static_cfg(LoadBalancing::RoundRobin), other, second]);
    let api = reg.get("api").unwrap();
    assert!(matches!(api.algo, LoadBalancing::LeastRequests));
    assert_eq!(api.timeouts.connect_ms, 999);
    assert_eq!(reg.get("web").unwrap().name, "web");
    assert!(reg.get("missing").is_none());
}
