use arc_gateway::arc_error::ArcError;
use arc_gateway::tls_config::{
    acme_plan, default_cache_dir, default_challenge, default_master_key_env, AcmeChallenge, AcmeFileConfig,
};

fn enabled() -> AcmeFileConfig {
    AcmeFileConfig {
        enabled: true,
        email: Some("  admin@example.com ".to_string()),
        domains: vec!["example.com".to_string()],
        staging: false,
        directory_url: None,
        directory_ca_pem: None,
        cache_dir: default_cache_dir(),
        master_key_env: default_master_key_env(),
        challenge: default_challenge(),
        http01_listen: None,
        startup_jitter_secs: None,
        runtime_threads: None,
    }
}

/// What the caller's socket-address parse of `http01_listen` reports for
/// the addresses these tests use.
fn listen_error(c: &AcmeFileConfig) -> Option<String> {
    match c.http01_listen.as_deref() {
        Some("not-an-address") => Some("invalid socket address syntax".to_string()),
        _ => None,
    }
}

fn refusal(c: &AcmeFileConfig) -> String {
    match acme_plan(c, listen_error(c)) {
        Err(ArcError::Config { msg }) => msg,
        _ => panic!("expected a config error"),
    }
}

#[test]
fn acme_plan_fills_defaults() {
    let p = acme_plan(&enabled(), None).unwrap();
    assert_eq!(p.email, "admin@example.com");
    assert_eq!(p.challenge, AcmeChallenge::TlsAlpn01);
    assert!(!p.has_http01_listen);
    assert_eq!(p.startup_jitter_secs, 1800);
    assert_eq!(p.runtime_threads, 2);
}

#[test]
fn acme_plan_refusals() {
    let mut c = enabled();
    c.email = Some("   ".to_string());
    assert_eq!(refusal(&c), "downstream_tls.acme.enabled=true but email is empty");
    let mut c = enabled();
    c.domains.clear();
    assert_eq!(refusal(&c), "downstream_tls.acme.enabled=true but domains is empty");
    let mut c = enabled();
    c.challenge = "dns-01".to_string();
    assert_eq!(refusal(&c), "downstream_tls.acme.challenge must be 'tls-alpn-01' or 'http-01', got 'dns-01'");
    let mut c = enabled();
    c.challenge = "http-01".to_string();
    assert_eq!(
        refusal(&c),
        "downstream_tls.acme.challenge=http-01 requires downstream_tls.acme.http01_listen"
    );
    c.http01_listen = Some("0.0.0.0:80".to_string());
    c.runtime_threads = Some(4);
    let p = acme_plan(&c, listen_error(&c)).unwrap();
    assert_eq!(p.challenge, AcmeChallenge::Http01);
    assert!(p.has_http01_listen);
    assert_eq!(p.runtime_threads, 4);
}

#[test]
fn acme_plan_refuses_a_listener_that_does_not_parse() {
    let mut c = enabled();
    c.challenge = "http-01".to_string();
    c.http01_listen = Some("not-an-address".to_string());
    assert_eq!(refusal(&c), "invalid downstream_tls.acme.http01_listen: invalid socket address syntax");
    // also for TLS-ALPN-01, where a listener is optional
    c.challenge = "tls-alpn-01".to_string();
    assert_eq!(refusal(&c), "invalid downstream_tls.acme.http01_listen: invalid socket address syntax");
    c.http01_listen = Some("127.0.0.1:8080".to_string());
    assert!(acme_plan(&c, listen_error(&c)).is_ok());
}
