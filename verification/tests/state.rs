use propylaea::artifact_cache::BlobFile;
use propylaea::config::Config;
use propylaea::crypto::ProxyKeypair;
use propylaea::identity::forget_proxy_identity;
use propylaea::identity::report_lines;
use propylaea::identity::ForgetProxyIdentityReport;
use propylaea::nonce::NonceCache;
use propylaea::nonce::TTL_NANOS;
use propylaea::state::proxy_id_text;
use propylaea::state::AppState;

fn test_config() -> Config {
    Config {
        bind_addr: "127.0.0.1:8080".into(),
        upstream_hecate_url: "http://127.0.0.1:8080".into(),
        api_key_pepper: "dev-api-key-pepper-change-me".into(),
        key_path: "proxy.key".into(),
        proxy_id_path: "proxy_id".into(),
        enrollment_token: None,
        reported_hostname: "test".into(),
        sync_interval_secs: 30,
        heartbeat_interval_secs: 60,
        insecure_skip_tls_verify: false,
        cache_enabled: false,
        cache_dir: "cache".into(),
        cache_max_bytes: 1024,
        trusted_proxy_cidrs: vec![],
    }
}

fn with_stored(stored: Option<&str>) -> Option<AppState> {
    AppState::new(test_config(), ProxyKeypair::generate(), stored, &Vec::<BlobFile>::new()).ok()
}

fn test_state() -> AppState {
    with_stored(None).unwrap()
}

#[test]
fn enroll_and_general_limits_are_independent() {
    let mut state = test_state();
    let client = "203.0.113.10";

    for _ in 0..120 {
        assert!(state.check_rate_limit(client, false));
    }
    assert!(!state.check_rate_limit(client, false));

    assert!(state.check_rate_limit(client, true));
}

#[test]
fn enroll_limit_is_enforced_separately() {
    let mut state = test_state();
    let client = "198.51.100.4";

    for _ in 0..10 {
        assert!(state.check_rate_limit(client, true));
    }
    assert!(!state.check_rate_limit(client, true));
    assert!(state.check_rate_limit(client, false));
}

#[test]
fn a_window_lasts_a_minute() {
    let mut state = test_state();
    let second = 1_000_000_000;
    for _ in 0..10 {
        assert!(state.check_rate_limit_at(5 * second, "c", true));
    }
    assert!(!state.check_rate_limit_at(65 * second - 1, "c", true));
    assert!(state.check_rate_limit_at(65 * second, "c", true));
    assert!(state.check_rate_limit_at(5 * second, "d", true));
}

#[test]
fn a_full_table_turns_new_clients_away() {
    let mut state = test_state();
    let second = 1_000_000_000;
    for i in 0..8192 {
        assert!(state.check_rate_limit_at(0, &format!("c{i}"), false));
    }
    assert!(!state.check_rate_limit_at(second, "new", false));
    assert!(state.check_rate_limit_at(second, "c5", false));
    assert!(state.check_rate_limit_at(60 * second, "new", false));
}

#[test]
fn the_stored_identity_is_read_back() {
    let id = 0x550e8400_e29b_41d4_a716_446655440000;
    let text = proxy_id_text(id);
    assert_eq!(with_stored(Some(&text)).unwrap().proxy_id(), Some(id));
    assert_eq!(with_stored(Some(&format!("  {text}\n"))).unwrap().proxy_id(), Some(id));
    assert_eq!(with_stored(None).unwrap().proxy_id(), None);
    assert!(with_stored(Some("")).is_none());
    assert!(with_stored(Some("x")).is_none());
}

#[test]
fn identity_is_taken_and_given_up() {
    let mut state = test_state();
    assert!(!state.forwarding_enabled());
    state.set_proxy_id(7);
    state.set_forwarding(true);
    assert_eq!(state.proxy_id(), Some(7));
    assert!(state.forwarding_enabled());
    let old = state.keypair().to_bytes();
    state.clear_proxy_identity(None);
    assert_eq!(state.proxy_id(), None);
    assert!(!state.forwarding_enabled());
    assert_eq!(state.keypair().to_bytes(), old);
    let fresh = ProxyKeypair::generate();
    let seed = fresh.to_bytes();
    state.clear_proxy_identity(Some(fresh));
    assert_eq!(state.keypair().to_bytes(), seed);
}

#[test]
fn forget_proxy_identity_removes_id_and_rotates_key() {
    let old_key = match ProxyKeypair::load_or_generate(None) {
        Ok((k, _)) => k.to_bytes(),
        Err(_) => panic!("a fresh key"),
    };

    let (report, fresh) = forget_proxy_identity(true, Some("550e8400-e29b-41d4-a716-446655440000"));
    assert!(report.removed_proxy_id);
    assert!(report.rotated_key);
    assert!(report.had_proxy_id);

    let new_key = fresh.unwrap().to_bytes();
    assert_ne!(old_key, new_key);
}

#[test]
fn forgetting_little_or_nothing() {
    let (report, fresh) = forget_proxy_identity(false, None);
    assert_eq!(report, ForgetProxyIdentityReport::default());
    assert!(fresh.is_none());
    let (report, fresh) = forget_proxy_identity(true, None);
    assert!(report.rotated_key && !report.removed_proxy_id && !report.had_proxy_id);
    assert!(fresh.is_some());
    let (report, fresh) = forget_proxy_identity(false, Some(" \n"));
    assert!(report.rotated_key && report.removed_proxy_id && !report.had_proxy_id);
    assert!(fresh.is_some());
}

#[test]
fn reports_are_shown() {
    let nothing = ForgetProxyIdentityReport::default();
    assert_eq!(
        report_lines(&nothing),
        vec!["No local proxy identity found; proxy is already unenrolled on this host.".to_string()]
    );
    let all = ForgetProxyIdentityReport { removed_proxy_id: true, rotated_key: true, had_proxy_id: true };
    let lines = report_lines(&all);
    assert_eq!(lines.len(), 7);
    assert_eq!(lines[0], "Local proxy identity cleared.");
    assert_eq!(lines[1], "  - removed proxy id");
    assert_eq!(lines[2], "  - rotated proxy signing key");
    assert_eq!(lines[3], "");
    assert_eq!(
        lines[6],
        "Stop Propylaea, set PROXY_ENROLLMENT_TOKEN to a new penr_… token, then restart."
    );
    let key_only = ForgetProxyIdentityReport { rotated_key: true, ..nothing };
    assert_eq!(report_lines(&key_only).len(), 4);
}

#[test]
fn nonces_are_taken_once() {
    let mut nonces = NonceCache::new();
    assert!(nonces.insert(1, "a"));
    assert!(!nonces.insert(1, "a"));
    assert!(nonces.insert(2, "a"));
    assert!(nonces.insert(1, "b"));
    assert!(!nonces.insert(1, "b"));
}

#[test]
fn nonces_are_forgotten_in_time() {
    let mut nonces = NonceCache::new();
    assert!(nonces.insert_at(10, 1, "a"));
    assert!(!nonces.insert_at(10 + TTL_NANOS - 1, 1, "a"));
    assert!(nonces.insert_at(10 + TTL_NANOS - 1, 1, "b"));
    assert!(nonces.insert_at(10 + TTL_NANOS, 1, "a"));
    assert!(!nonces.insert_at(10 + TTL_NANOS, 1, "b"));
}
