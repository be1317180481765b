use arc_gateway::control_flow::{
    authorized, gossip_only, json_error_body, max_body_bytes, peer_timeout_ms, push_admission, push_concurrency,
    push_quorum, FollowerPoll, PollOutcome, PushRound,
};
use arc_gateway::control_flow::{audit_level, longpoll_since, longpoll_wait_ms, AuditLevel};
use arc_gateway::control_flow::worker_count;
use arc_gateway::control_helpers::ControlRole;
use arc_gateway::xdp_filter::{decide, BlockEntry, XdpVerdict};

// The peer's address is reduced to whether it is a loopback address
// (127.0.0.1 is, 10.0.0.7 is not) before the check.

#[test]
fn auth_without_token_allows_only_loopback() {
    assert!(authorized(true, None, None));
    assert!(!authorized(false, None, None));
}

#[test]
fn auth_with_token_requires_header_even_on_loopback() {
    assert!(!authorized(true, None, Some("tkn")));
}

#[test]
fn auth_with_token_accepts_trimmed_bearer_value() {
    assert!(authorized(false, Some("   Bearer tkn   "), Some("tkn")));
}

#[test]
fn auth_with_token_rejects_wrong_or_non_bearer_value() {
    assert!(!authorized(false, Some("Bearer wrong"), Some("tkn")));
    assert!(!authorized(false, Some("Basic abc"), Some("tkn")));
    assert!(!authorized(false, Some(""), Some("tkn")));
}

#[test]
fn push_is_gated_on_credentials_then_role() {
    assert_eq!(push_admission(false, ControlRole::Leader), Some((401, "unauthorized")));
    assert_eq!(
        push_admission(true, ControlRole::Follower),
        Some((403, "cluster config push is allowed only on leader"))
    );
    assert_eq!(push_admission(true, ControlRole::Leader), None);
    assert!(gossip_only(Some((true, false))));
    assert!(!gossip_only(Some((true, true))));
    assert!(!gossip_only(Some((false, false))));
    assert!(!gossip_only(None));
}

#[test]
fn push_limits_are_clamped() {
    assert_eq!(push_quorum(4, 0), 3);
    assert_eq!(push_quorum(3, 0), 3);
    assert_eq!(push_quorum(0, 0), 1);
    assert_eq!(push_quorum(2, 9), 3);
    assert_eq!(push_quorum(2, 2), 2);
    assert_eq!(push_concurrency(0), 16);
    assert_eq!(push_concurrency(1000), 256);
    assert_eq!(push_concurrency(3), 3);
    assert_eq!(peer_timeout_ms(5), 100);
    assert_eq!(peer_timeout_ms(2500), 2500);
    assert_eq!(max_body_bytes(None), 16 * 1024 * 1024);
    assert_eq!(max_body_bytes(Some(10)), 1024);
    assert_eq!(max_body_bytes(Some(4096)), 4096);
}

#[test]
fn push_round_counts_validations_and_commits() {
    let mut r = PushRound::new(7, 4, 0);
    assert_eq!(r.quorum, 3);
    r.record_validation("http://a".to_string(), true);
    r.record_validation("http://b".to_string(), false);
    assert_eq!(r.validated, 2);
    let (status, body) = r.validate_reply().expect("quorum not reached");
    assert_eq!(status, 503);
    assert_eq!(
        body,
        "{\"ok\":false,\"reason\":\"quorum not reached in validate phase\",\"generation\":7,\"validated\":2,\"quorum\":3}\n"
    );
    r.record_validation("http://c".to_string(), true);
    assert!(r.validate_reply().is_none());
    assert_eq!(r.ready_peers, vec!["http://a".to_string(), "http://c".to_string()]);
    r.record_commit(true);
    let (status, body) = r.commit_reply();
    assert_eq!(status, 503);
    assert_eq!(
        body,
        "{\"ok\":false,\"generation\":7,\"validated\":3,\"committed\":2,\"quorum\":3,\"scope\":\"http_push\"}\n"
    );
    r.record_commit(true);
    assert_eq!(r.commit_reply().0, 200);
}

#[test]
fn error_bodies_escape_the_message() {
    assert_eq!(json_error_body("bad \"x\""), "{\"error\":\"bad \\\"x\\\"\"}\n");
    assert_eq!(arc_gateway::control_flow::gossip_push_body(12), "{\"ok\":true,\"generation\":12,\"scope\":\"gossip\"}\n");
}

#[test]
fn follower_poll_paces_itself() {
    assert_eq!(FollowerPoll::longpoll_timeout_ms(0), 30_000);
    assert_eq!(FollowerPoll::longpoll_timeout_ms(45_000), 45_000);
    assert_eq!(FollowerPoll::longpoll_timeout_ms(500_000), 120_000);
    assert_eq!(FollowerPoll::request_timeout_ms(30_000, 5), 30_100);
    assert_eq!(FollowerPoll::request_timeout_ms(120_000, 90_000), 180_000);
    assert_eq!(FollowerPoll::request_timeout_ms(120_000, u64::MAX), 180_000);

    let mut p = FollowerPoll::new(3);
    assert_eq!(p.query(30_000), "since=3&timeout_ms=30000");
    assert_eq!(p.after_poll(PollOutcome::Failed), 200);
    assert_eq!(p.after_poll(PollOutcome::Failed), 400);
    for _ in 0..10 {
        p.after_poll(PollOutcome::Failed);
    }
    assert_eq!(p.backoff_ms, 5_000);
    assert_eq!(p.after_poll(PollOutcome::NotModified), 0);
    assert_eq!(p.backoff_ms, 200);
    assert_eq!(p.after_poll(PollOutcome::Applied { etag_gen: 0, applied_gen: 9 }), 0);
    assert_eq!(p.since, 9);
    p.after_poll(PollOutcome::Applied { etag_gen: 11, applied_gen: 10 });
    assert_eq!(p.since, 11);
}

#[test]
fn audit_levels_follow_status() {
    assert_eq!(audit_level("applied"), AuditLevel::Info);
    assert_eq!(audit_level("validated"), AuditLevel::Info);
    assert_eq!(audit_level("rejected_quorum"), AuditLevel::Warn);
    assert_eq!(audit_level("rejected_invalid_config"), AuditLevel::Warn);
    assert_eq!(audit_level("rejected_restart_required"), AuditLevel::Warn);
    assert_eq!(audit_level("boom"), AuditLevel::Error);
}

#[test]
fn longpoll_parameters() {
    assert_eq!(longpoll_since(Some(4), Some(9), 12), 4);
    assert_eq!(longpoll_since(None, Some(9), 12), 9);
    assert_eq!(longpoll_since(None, None, 12), 12);
    assert_eq!(longpoll_wait_ms(Some(0), 5_000), 1);
    assert_eq!(longpoll_wait_ms(Some(900_000), 5_000), 900_000);
    assert_eq!(longpoll_wait_ms(None, 0), 1);
    assert_eq!(longpoll_wait_ms(None, 500_000), 120_000);
    assert_eq!(longpoll_wait_ms(None, 30_000), 30_000);
}

#[test]
fn xdp_verdicts() {
    assert_eq!(decide(true, Some(BlockEntry { blocked_at_ns: 0, ttl_ns: 0 }), 5), (XdpVerdict::Pass, false));
    assert_eq!(decide(false, None, 5), (XdpVerdict::Pass, false));
    assert_eq!(decide(false, Some(BlockEntry { blocked_at_ns: 0, ttl_ns: 0 }), 5), (XdpVerdict::Drop, false));
    assert_eq!(decide(false, Some(BlockEntry { blocked_at_ns: 10, ttl_ns: 5 }), 14), (XdpVerdict::Drop, false));
    assert_eq!(decide(false, Some(BlockEntry { blocked_at_ns: 10, ttl_ns: 5 }), 15), (XdpVerdict::Pass, true));
    // The clock wrapped: elapsed time counts across the wrap.
    assert_eq!(decide(false, Some(BlockEntry { blocked_at_ns: u64::MAX - 1, ttl_ns: 5 }), 2), (XdpVerdict::Drop, false));
}

#[test]
fn worker_count_falls_back_to_the_detected_cpus() {
    assert_eq!(worker_count(6, Some(32)), 6);
    assert_eq!(worker_count(0, Some(8)), 8);
    assert_eq!(worker_count(0, Some(0)), 1);
    assert_eq!(worker_count(0, None), 1);
}
