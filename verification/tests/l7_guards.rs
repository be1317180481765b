use std::time::Duration;

use arc_gateway::l7::{
    duration_to_u32_secs, secs_to_u32_clamped, H2Decision, H2StreamFloodGuard, L7Protection, L7ProtectionConfig,
    SlowlorisDecision, SlowlorisGuard, TlsFloodDecision, TlsFloodGuard,
};

fn cfg() -> L7ProtectionConfig {
    L7ProtectionConfig::default()
}

#[test]
fn slowloris_guard_enforces_incomplete_connection_cap() {
    let mut c = cfg();
    c.slowloris.enabled = true;
    c.slowloris.max_incomplete_conns_per_ip = 1;
    let mut g = SlowlorisGuard::new(&c);
    let ip = 42u64;

    assert_eq!(g.on_conn_start(ip), SlowlorisDecision::Allow);
    assert_eq!(g.on_conn_start(ip), SlowlorisDecision::DropTooManyIncomplete);
    assert_eq!(g.incomplete_count(ip), 1);
    g.on_conn_end(ip);
    assert_eq!(g.incomplete_count(ip), 0);
}

#[test]
fn slowloris_guard_checks_timeout_and_min_rate() {
    let mut c = cfg();
    c.slowloris.enabled = true;
    c.slowloris.headers_timeout_secs = 1;
    c.slowloris.min_recv_rate_bps = 100;
    let g = SlowlorisGuard::new(&c);

    let mut st = g.init_conn_state(0);
    assert_eq!(g.on_header_bytes(2_000_000_000, &mut st, 1), SlowlorisDecision::DropTimeout);

    let mut st2 = g.init_conn_state(0);
    assert_eq!(g.on_header_bytes(500_000_000, &mut st2, 1), SlowlorisDecision::DropMinRate);

    let mut st3 = g.init_conn_state(0);
    assert_eq!(g.on_header_bytes(500_000_000, &mut st3, 100), SlowlorisDecision::Allow);
}

#[test]
fn tls_flood_guard_rate_limits_per_second_window() {
    let mut c = cfg();
    c.tls_flood.enabled = true;
    c.tls_flood.max_handshakes_per_ip_per_sec = 2;
    let mut g = TlsFloodGuard::new(&c);
    let ip = 100u64;

    assert_eq!(g.on_handshake(ip, 10), TlsFloodDecision::Allow);
    assert_eq!(g.on_handshake(ip, 10), TlsFloodDecision::Allow);
    assert_eq!(g.on_handshake(ip, 10), TlsFloodDecision::DropRateLimited);
    assert_eq!(g.on_handshake(ip, 11), TlsFloodDecision::Allow);
}

#[test]
fn h2_guard_limits_stream_and_rst_bursts() {
    let mut c = cfg();
    c.h2_stream_flood.enabled = true;
    c.h2_stream_flood.max_concurrent_streams = 2;
    c.h2_stream_flood.max_streams_per_sec = 2;
    c.h2_stream_flood.max_rst_per_sec = 1;
    let g = H2StreamFloodGuard::new(&c);

    let mut st = g.init_conn_state(100);
    assert_eq!(g.on_stream_open(&mut st, 100), H2Decision::Allow);
    assert_eq!(g.on_stream_open(&mut st, 100), H2Decision::Allow);
    assert_eq!(g.on_stream_open(&mut st, 100), H2Decision::GoAway);

    g.on_stream_close(&mut st);
    g.on_stream_close(&mut st);
    assert_eq!(g.on_stream_open(&mut st, 101), H2Decision::Allow);

    assert_eq!(g.on_rst_stream(&mut st, 101), H2Decision::Allow);
    assert_eq!(g.on_rst_stream(&mut st, 101), H2Decision::GoAway);
}

#[test]
fn duration_to_u32_secs_clamps_at_u32_max() {
    assert_eq!(duration_to_u32_secs(Duration::from_secs(7)), 7);
    assert_eq!(duration_to_u32_secs(Duration::from_secs(u64::MAX)), u32::MAX);
}

#[test]
fn secs_clamp_exact_values() {
    assert_eq!(secs_to_u32_clamped(0), 0);
    assert_eq!(secs_to_u32_clamped(u32::MAX as u64), u32::MAX);
    assert_eq!(secs_to_u32_clamped(u32::MAX as u64 + 1), u32::MAX);
}

#[test]
fn disabled_guards_allow_everything() {
    let c = cfg();
    let mut p = L7Protection::new(&c);
    for _ in 0..100 {
        assert_eq!(p.slowloris.on_conn_start(9), SlowlorisDecision::Allow);
        assert_eq!(p.tls_flood.on_handshake(9, 1), TlsFloodDecision::Allow);
    }
    assert_eq!(p.slowloris.incomplete_count(9), 0);
    let mut st = p.h2_stream_flood.init_conn_state(1);
    for _ in 0..1000 {
        assert_eq!(p.h2_stream_flood.on_stream_open(&mut st, 1), H2Decision::Allow);
        assert_eq!(p.h2_stream_flood.on_rst_stream(&mut st, 1), H2Decision::Allow);
    }
    assert_eq!(st.open_streams, 1000);
    assert_eq!(p.metrics.slowloris_dropped_total, 0);
}

#[test]
fn slowloris_start_then_end_restores_count() {
    let mut c = cfg();
    c.slowloris.enabled = true;
    c.slowloris.max_incomplete_conns_per_ip = 3;
    let mut g = SlowlorisGuard::new(&c);
    assert_eq!(g.on_conn_start(5), SlowlorisDecision::Allow);
    assert_eq!(g.on_conn_start(5), SlowlorisDecision::Allow);
    assert_eq!(g.incomplete_count(5), 2);
    g.on_conn_end(5);
    g.on_conn_end(5);
    g.on_conn_end(5);
    assert_eq!(g.incomplete_count(5), 0);
    assert_eq!(g.headers_timeout_ns(), 10_000_000_000);
}

#[test]
fn zero_limits_are_raised_to_one() {
    let mut c = cfg();
    c.slowloris.enabled = true;
    c.slowloris.headers_timeout_secs = 0;
    c.slowloris.max_incomplete_conns_per_ip = 0;
    c.tls_flood.enabled = true;
    c.tls_flood.max_handshakes_per_ip_per_sec = 0;
    let mut g = SlowlorisGuard::new(&c);
    assert_eq!(g.headers_timeout_ns(), 1);
    assert_eq!(g.on_conn_start(1), SlowlorisDecision::Allow);
    assert_eq!(g.on_conn_start(1), SlowlorisDecision::DropTooManyIncomplete);
    let mut t = TlsFloodGuard::new(&c);
    assert_eq!(t.on_handshake(1, 0), TlsFloodDecision::Allow);
    assert_eq!(t.on_handshake(1, 0), TlsFloodDecision::DropRateLimited);
}
