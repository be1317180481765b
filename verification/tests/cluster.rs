use arc_gateway::cluster_circuit::{ClusterCircuit, ClusterCircuitConfig, NodeCircuitSnapshot};

fn circuit(threshold: u32, open_ms: u64, probe_ms: u64) -> ClusterCircuit {
    let mut cfg = ClusterCircuitConfig::default();
    cfg.fail_streak_threshold = threshold;
    cfg.open_ms = open_ms;
    cfg.half_open_probe_interval_ms = probe_ms;
    ClusterCircuit::new("node-a".to_string(), cfg)
}

#[test]
fn half_open_probe_is_throttled() {
    let mut c = circuit(1, 20, 40);
    let up = "127.0.0.1:19099";
    c.record_failure_at(up, 1_000);
    assert!(c.is_open_at(up, 1_000));
    assert!(!c.is_open_at(up, 1_025));
    assert!(c.is_open_at(up, 1_025));
}

#[test]
fn half_open_probe_failure_reopens_immediately() {
    let mut c = circuit(3, 20, 50);
    let up = "127.0.0.1:19199";
    c.record_failure_at(up, 1_000);
    c.record_failure_at(up, 1_000);
    c.record_failure_at(up, 1_000);
    assert!(c.is_open_at(up, 1_000));
    assert!(!c.is_open_at(up, 1_025));
    c.record_failure_at(up, 1_025);
    assert!(c.is_open_at(up, 1_025));
}

#[test]
fn hot_settings_apply_to_next_open_cycle() {
    let mut c = circuit(1, 1_000, 1_000);
    let up = "127.0.0.1:19299";
    c.apply_hot_settings(20, 10);
    c.record_failure_at(up, 5_000);
    assert!(c.is_open_at(up, 5_000));
    assert!(!c.is_open_at(up, 5_030));
    assert!(c.is_open_at(up, 5_030));
    assert!(!c.is_open_at(up, 5_045));
}

#[test]
fn streak_below_threshold_stays_closed() {
    let mut c = circuit(3, 100, 10);
    let up = "10.0.0.1:80";
    c.record_failure_at(up, 1);
    c.record_failure_at(up, 2);
    assert!(!c.is_open_at(up, 3));
    c.record_failure_at(up, 3);
    assert!(c.is_open_at(up, 3));
    assert!(c.is_open_at(up, 102));
}

#[test]
fn success_resets_streak_and_closes() {
    let mut c = circuit(2, 100, 10);
    let up = "10.0.0.1:80";
    c.record_failure_at(up, 1);
    c.record_success_at(up, 2);
    c.record_failure_at(up, 3);
    assert!(!c.is_open_at(up, 3));
    c.record_failure_at(up, 4);
    assert!(c.is_open_at(up, 4));
    c.record_success_at(up, 5);
    assert!(!c.is_open_at(up, 5));
}

#[test]
fn disabled_circuit_never_opens() {
    let mut cfg = ClusterCircuitConfig::default();
    cfg.enabled = false;
    cfg.fail_streak_threshold = 1;
    let mut c = ClusterCircuit::new("n".to_string(), cfg);
    assert!(!c.enabled());
    c.record_failure_at("a:1", 10);
    assert!(!c.is_open_at("a:1", 10));
}

#[test]
fn local_snapshot_lists_open_windows() {
    let mut c = circuit(1, 50, 10);
    c.record_failure_at("a:1", 100);
    c.record_failure_at("b:2", 100);
    let snap = c.local_snapshot_at(120);
    assert_eq!(snap.node_id, "node-a");
    assert_eq!(snap.ts_ms, 120);
    assert_eq!(snap.open_until_ms, vec![("a:1".to_string(), 150), ("b:2".to_string(), 150)]);
    let later = c.local_snapshot_at(200);
    assert!(later.open_until_ms.is_empty());
}

#[test]
fn peer_quorum_opens_and_expires() {
    let mut cfg = ClusterCircuitConfig::default();
    cfg.peer_open_quorum = 2;
    cfg.peer_ttl_ms = 1_000;
    let mut c = ClusterCircuit::new("me".to_string(), cfg);
    let snap = |id: &str| NodeCircuitSnapshot {
        node_id: id.to_string(),
        ts_ms: 0,
        open_until_ms: vec![("x:1".to_string(), 5_000)],
    };
    c.ingest_peer_snapshot_at(snap("p1"), 100);
    assert!(!c.is_open_at("x:1", 100));
    // A second report from the same peer does not add a vote.
    c.ingest_peer_snapshot_at(snap("p1"), 150);
    assert!(!c.is_open_at("x:1", 150));
    // Our own snapshot is ignored.
    c.ingest_peer_snapshot_at(snap("me"), 160);
    assert!(!c.is_open_at("x:1", 160));
    c.ingest_peer_snapshot_at(snap("p2"), 200);
    assert!(c.is_open_at("x:1", 200));
    // Once both peers have expired, a rebuild drops their votes.
    c.record_success_at("x:1", 1_300);
    assert!(!c.is_open_at("x:1", 1_300));
}

#[test]
fn gossip_interval_has_a_floor() {
    let mut cfg = ClusterCircuitConfig::default();
    cfg.peer_sync_interval_ms = 10;
    let c = ClusterCircuit::new("n".to_string(), cfg);
    assert_eq!(c.gossip_interval(), std::time::Duration::from_millis(100));
    let c2 = ClusterCircuit::new("n".to_string(), ClusterCircuitConfig::default());
    assert_eq!(c2.gossip_interval(), std::time::Duration::from_millis(1_000));
}
