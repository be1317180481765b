use arc_gateway::cluster_circuit::ClusterCircuitConfig;
use arc_gateway::tls_config::{acme_members, acme_tick_secs};

#[test]
fn circuit_settings_are_clamped() {
    let c = ClusterCircuitConfig::from_settings(0, 0, 0, 50, 100, 0);
    assert!(c.enabled);
    assert_eq!(c.fail_streak_threshold, 1);
    assert_eq!(c.open_ms, 1);
    assert_eq!(c.half_open_probe_interval_ms, 1);
    assert_eq!(c.peer_sync_interval_ms, 200);
    assert_eq!(c.peer_ttl_ms, 1_000);
    assert_eq!(c.peer_open_quorum, 1);

    let d = ClusterCircuitConfig::from_settings(5, 2_000, 300, 1_500, 800, 3);
    assert_eq!(d.fail_streak_threshold, 5);
    assert_eq!(d.open_ms, 2_000);
    assert_eq!(d.peer_sync_interval_ms, 1_500);
    assert_eq!(d.peer_ttl_ms, 3_200);
    assert_eq!(d.peer_open_quorum, 3);

    let e = ClusterCircuitConfig::from_settings(1, 1, 1, 200, u64::MAX / 2, 1);
    assert_eq!(e.peer_ttl_ms, u64::MAX);
}

#[test]
fn acme_members_default_to_this_node() {
    let none: Vec<String> = Vec::new();
    assert_eq!(acme_members(&none, &"node-a".to_string()), vec!["node-a".to_string()]);
    let some = vec!["x".to_string(), "y".to_string()];
    assert_eq!(acme_members(&some, &"node-a".to_string()), some);
    assert_eq!(acme_tick_secs(0), 1);
    assert_eq!(acme_tick_secs(30), 30);
}
