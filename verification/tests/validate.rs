use axum::http::HeaderMap;
use axum::http::HeaderValue;
use base64::engine::general_purpose::STANDARD;
use base64::Engine;
use propylaea::artifact_cache::BlobFile;
use propylaea::clock::UtcTime;
use propylaea::config::Config;
use propylaea::crypto::hmac_sha256_hex;
use propylaea::crypto::ProxyKeypair;
use propylaea::nonce::TTL_NANOS;
use propylaea::records::AgentState;
use propylaea::records::ProxySyncEnrollmentToken;
use propylaea::signing::names_are_tokens;
use propylaea::signing::signed_headers;
use propylaea::signing::Stamp;
use propylaea::state::AppState;
use propylaea::sync::apply_sync;
use propylaea::sync::ProxySyncAgent;
use propylaea::sync::ProxySyncResponse;
use propylaea::validate::binding_accepts;
use propylaea::validate::precheck_enroll;
use propylaea::validate::precheck_enroll_at;
use propylaea::validate::signed_fields;
use propylaea::validate::verify_signed_agent_request;
use propylaea::validate::verify_signed_agent_request_at;
use propylaea::validate::EnrollRequest;
use propylaea::validate::SignedFields;
use propylaea::validate::SigningHeaders;
use propylaea::web::StatusCode;

const PEPPER: &str = "dev-api-key-pepper-change-me";
const AGENT: u128 = 0x550e8400_e29b_41d4_a716_446655440000;
const NOW: UtcTime = UtcTime { secs: 1_000_000, nanos: 0 };

fn names() -> SigningHeaders {
    SigningHeaders {
        agent_id: "X-Hecate-Agent-Id".into(),
        timestamp: "X-Hecate-Timestamp".into(),
        nonce: "X-Hecate-Nonce".into(),
        signature: "X-Hecate-Signature".into(),
    }
}

fn empty_state() -> AppState {
    let config = Config {
        bind_addr: "127.0.0.1:8080".into(),
        upstream_hecate_url: "http://127.0.0.1:8080".into(),
        api_key_pepper: PEPPER.into(),
        key_path: "proxy.key".into(),
        proxy_id_path: "proxy_id".into(),
        enrollment_token: None,
        reported_hostname: "test".into(),
        sync_interval_secs: 30,
        heartbeat_interval_secs: 60,
        insecure_skip_tls_verify: false,
        cache_enabled: false,
        cache_dir: "cache".into(),
        cache_max_bytes: 1024,
        trusted_proxy_cidrs: vec![],
    };
    AppState::new(config, ProxyKeypair::generate(), None, &Vec::<BlobFile>::new())
        .unwrap_or_else(|_| panic!("no identity is stored"))
}

fn agent_state(agent: ProxySyncAgent, tokens: Vec<ProxySyncEnrollmentToken>) -> AppState {
    let mut state = empty_state();
    apply_sync(
        &mut state,
        &ProxySyncResponse {
            agents: vec![agent],
            enrollment_tokens: tokens,
            proxy_enrollment_tokens: vec![],
        },
    );
    state
}

fn agent(key: &ProxyKeypair) -> ProxySyncAgent {
    ProxySyncAgent {
        agent_id: AGENT,
        credential_pubkey: key.public_key_b64(),
        credential_pubkey_previous: None,
        credential_pubkey_previous_expires_at: None,
        state: AgentState::Admitted,
    }
}

fn fields(key: &ProxyKeypair, message: &[u8], nonce: &str) -> SignedFields {
    SignedFields {
        agent_id: AGENT,
        timestamp_ms: 1_000_000_000,
        nonce: nonce.into(),
        signature: key.sign(message),
    }
}

#[test]
fn a_signed_request_goes_through_once() {
    let key = ProxyKeypair::generate();
    let mut state = agent_state(agent(&key), vec![]);
    let f = fields(&key, b"message", "n1");
    assert_eq!(verify_signed_agent_request_at(&mut state, &f, b"message", &NOW, 0), Ok(()));
    assert_eq!(
        verify_signed_agent_request_at(&mut state, &f, b"message", &NOW, TTL_NANOS - 1),
        Err(StatusCode::Unauthorized)
    );
    assert_eq!(verify_signed_agent_request_at(&mut state, &f, b"message", &NOW, TTL_NANOS), Ok(()));
}

#[test]
fn a_forged_request_uses_up_no_nonce() {
    let key = ProxyKeypair::generate();
    let mut state = agent_state(agent(&key), vec![]);
    let f = fields(&key, b"message", "n1");
    assert_eq!(
        verify_signed_agent_request_at(&mut state, &f, b"other", &NOW, 0),
        Err(StatusCode::Unauthorized)
    );
    assert_eq!(verify_signed_agent_request_at(&mut state, &f, b"message", &NOW, 0), Ok(()));
}

#[test]
fn clocks_may_be_off_by_five_minutes() {
    let key = ProxyKeypair::generate();
    let mut state = agent_state(agent(&key), vec![]);
    let mut at = |ms: i64, nonce: &str| {
        let mut f = fields(&key, b"m", nonce);
        f.timestamp_ms = ms;
        verify_signed_agent_request_at(&mut state, &f, b"m", &NOW, 0)
    };
    assert_eq!(at(1_000_300_000, "a"), Ok(()));
    assert_eq!(at(1_000_300_001, "b"), Err(StatusCode::Unauthorized));
    assert_eq!(at(999_700_000, "c"), Ok(()));
    assert_eq!(at(999_699_999, "d"), Err(StatusCode::Unauthorized));
    assert_eq!(at(i64::MIN, "e"), Err(StatusCode::Unauthorized));
    assert_eq!(at(i64::MAX, "f"), Err(StatusCode::Unauthorized));
}

#[test]
fn nonces_have_bounds() {
    let key = ProxyKeypair::generate();
    let mut state = agent_state(agent(&key), vec![]);
    let mut with = |nonce: &str| {
        verify_signed_agent_request_at(&mut state, &fields(&key, b"m", nonce), b"m", &NOW, 0)
    };
    assert_eq!(with(""), Err(StatusCode::Unauthorized));
    assert_eq!(with(&"n".repeat(128)), Ok(()));
    assert_eq!(with(&"n".repeat(129)), Err(StatusCode::Unauthorized));
}

#[test]
fn unknown_and_revoked_agents() {
    let key = ProxyKeypair::generate();
    let f = fields(&key, b"m", "n");
    assert_eq!(
        verify_signed_agent_request_at(&mut empty_state(), &f, b"m", &NOW, 0),
        Err(StatusCode::Unauthorized)
    );
    let mut revoked = agent(&key);
    revoked.state = AgentState::Revoked;
    assert_eq!(
        verify_signed_agent_request_at(&mut agent_state(revoked, vec![]), &f, b"m", &NOW, 0),
        Err(StatusCode::Forbidden)
    );
}

#[test]
fn the_previous_key_counts_until_it_expires() {
    let old = ProxyKeypair::generate();
    let new = ProxyKeypair::generate();
    let verdict = |expires: Option<&str>, previous: &str| {
        let mut a = agent(&new);
        a.credential_pubkey_previous = Some(previous.to_string());
        a.credential_pubkey_previous_expires_at = expires.map(|s| s.to_string());
        let mut state = agent_state(a, vec![]);
        verify_signed_agent_request_at(&mut state, &fields(&old, b"m", "n"), b"m", &NOW, 0)
    };
    let key = old.public_key_b64();
    assert_eq!(verdict(Some("1970-01-12T13:46:40.000000001Z"), &key), Ok(()));
    assert_eq!(verdict(Some("1970-01-12T13:46:40Z"), &key), Err(StatusCode::Unauthorized));
    assert_eq!(verdict(Some("never"), &key), Err(StatusCode::Unauthorized));
    assert_eq!(verdict(None, &key), Err(StatusCode::Unauthorized));
    assert_eq!(verdict(Some("2099-01-01T00:00:00Z"), "  "), Err(StatusCode::Unauthorized));
}

#[test]
fn the_real_clock_refuses_old_requests() {
    let key = ProxyKeypair::generate();
    let mut state = agent_state(agent(&key), vec![]);
    let f = fields(&key, b"m", "n");
    assert_eq!(
        verify_signed_agent_request(&mut state, &f, b"m"),
        Err(StatusCode::Unauthorized)
    );
}

#[test]
fn signed_headers_are_read_back_and_accepted() {
    let key = ProxyKeypair::generate();
    let mut state = agent_state(agent(&key), vec![]);
    let stamp = Stamp::now();
    let headers = signed_headers(&key, AGENT, &stamp, b"canonical", &names());
    assert_eq!(headers.len(), 4);
    assert_eq!(
        headers.get("x-hecate-agent-id").unwrap(),
        "550e8400-e29b-41d4-a716-446655440000"
    );
    let f = signed_fields(&headers, &names()).unwrap_or_else(|_| panic!("all headers are there"));
    assert_eq!(f.agent_id, AGENT);
    assert_eq!(f.timestamp_ms, stamp.timestamp_ms());
    assert_eq!(f.nonce, stamp.nonce());
    assert_eq!(verify_signed_agent_request(&mut state, &f, b"canonical"), Ok(()));
    assert_eq!(
        verify_signed_agent_request(&mut state, &f, b"canonical"),
        Err(StatusCode::Unauthorized)
    );
}

#[test]
fn stamps_say_when_and_carry_a_nonce() {
    let stamp = Stamp::at(&UtcTime { secs: -1, nanos: 5_000_000 }, &[0xab; 16]);
    assert_eq!(stamp.timestamp_ms(), -995);
    assert_eq!(stamp.nonce(), "abababababababababababababababab");
    let headers = signed_headers(&ProxyKeypair::generate(), 1, &stamp, b"c", &names());
    assert_eq!(headers.get("x-hecate-timestamp").unwrap(), "-995");
}

#[test]
fn every_signing_header_is_needed() {
    let key = ProxyKeypair::generate();
    let whole = signed_headers(&key, AGENT, &Stamp::now(), b"c", &names());
    for name in ["x-hecate-agent-id", "x-hecate-timestamp", "x-hecate-nonce", "x-hecate-signature"] {
        let mut headers: HeaderMap = whole.clone();
        headers.remove(name);
        assert!(matches!(signed_fields(&headers, &names()), Err(StatusCode::Unauthorized)));
        headers.insert(name, HeaderValue::from_bytes(b"\xff").unwrap());
        assert!(signed_fields(&headers, &names()).is_err());
    }
    let mut headers = whole.clone();
    headers.insert("x-hecate-agent-id", HeaderValue::from_static("nobody"));
    assert!(signed_fields(&headers, &names()).is_err());
    let mut headers = whole;
    headers.insert("x-hecate-timestamp", HeaderValue::from_static("noon"));
    assert!(signed_fields(&headers, &names()).is_err());
}

fn sample_token(bound_machine_id: Option<u128>) -> ProxySyncEnrollmentToken {
    ProxySyncEnrollmentToken {
        token_hmac: hmac_sha256_hex(PEPPER, &format!("enr_{}", "a".repeat(48))),
        expires_at: "2099-01-01T00:00:00Z".into(),
        used_at: None,
        bound_machine_id,
        bound_proxy_id: None,
    }
}

fn sample_request(agent_id: Option<u128>) -> EnrollRequest {
    EnrollRequest {
        enrollment_token: format!("enr_{}", "a".repeat(48)),
        agent_id,
        public_key: STANDARD.encode([0u8; 32]),
    }
}

fn enroll(token: ProxySyncEnrollmentToken, request: Option<EnrollRequest>) -> Result<(), StatusCode> {
    let state = agent_state(agent(&ProxyKeypair::generate()), vec![token]);
    precheck_enroll_at(&state, &request, &NOW)
}

#[test]
fn binding_mismatch_rejected() {
    let bound = 0x1111;
    let other = 0x2222;
    let token = sample_token(Some(bound));
    let request = sample_request(Some(other));
    match (token.bound_machine_id, request.agent_id) {
        (Some(b), Some(a)) if b != a => assert_ne!(b, a),
        _ => panic!("expected mismatch"),
    }
    assert!(!binding_accepts(token.bound_machine_id, request.agent_id));
    assert_eq!(enroll(token, Some(request)), Err(StatusCode::Unauthorized));
}

#[test]
fn unbound_token_rejects_agent_id_in_body() {
    let token = sample_token(None);
    let request = sample_request(Some(0x3333));
    match (token.bound_machine_id, request.agent_id) {
        (None, Some(_)) => {}
        _ => panic!("expected rejection path"),
    }
    assert!(!binding_accepts(token.bound_machine_id, request.agent_id));
    assert_eq!(enroll(token, Some(request)), Err(StatusCode::Unauthorized));
}

#[test]
fn good_enrollments() {
    assert_eq!(enroll(sample_token(None), Some(sample_request(None))), Ok(()));
    assert_eq!(enroll(sample_token(Some(5)), Some(sample_request(Some(5)))), Ok(()));
    assert_eq!(enroll(sample_token(Some(5)), Some(sample_request(None))), Ok(()));
    let mut spaced = sample_request(None);
    spaced.public_key = format!("  {}\n", spaced.public_key);
    assert_eq!(enroll(sample_token(None), Some(spaced)), Ok(()));
    let state = agent_state(agent(&ProxyKeypair::generate()), vec![sample_token(None)]);
    assert_eq!(precheck_enroll(&state, &Some(sample_request(None))), Ok(()));
}

#[test]
fn bad_enrollments() {
    assert_eq!(enroll(sample_token(None), None), Err(StatusCode::BadRequest));
    let with_token = |token: String| {
        let mut request = sample_request(None);
        request.enrollment_token = token;
        enroll(sample_token(None), Some(request))
    };
    assert_eq!(with_token("enr_".into()), Err(StatusCode::Unauthorized));
    assert_eq!(with_token(format!("penr_{}", "a".repeat(48))), Err(StatusCode::Unauthorized));
    assert_eq!(with_token(format!("enr_{}", "a".repeat(47))), Err(StatusCode::Unauthorized));
    assert_eq!(with_token(format!("enr_{}g", "a".repeat(47))), Err(StatusCode::Unauthorized));
    assert_eq!(with_token(format!("enr_{}", "b".repeat(48))), Err(StatusCode::Unauthorized));
    let mut request = sample_request(None);
    request.public_key = "!".into();
    assert_eq!(enroll(sample_token(None), Some(request)), Err(StatusCode::BadRequest));
    let mut request = sample_request(None);
    request.public_key = STANDARD.encode([0u8; 31]);
    assert_eq!(enroll(sample_token(None), Some(request)), Err(StatusCode::BadRequest));
}

#[test]
fn stale_tokens() {
    let mut token = sample_token(None);
    token.expires_at = "1970-01-12T13:46:40Z".into();
    assert_eq!(enroll(token, Some(sample_request(None))), Err(StatusCode::Unauthorized));
    let mut token = sample_token(None);
    token.expires_at = "1970-01-12T13:46:41Z".into();
    assert_eq!(enroll(token, Some(sample_request(None))), Ok(()));
    let mut token = sample_token(None);
    token.expires_at = "some day".into();
    assert_eq!(enroll(token, Some(sample_request(None))), Err(StatusCode::Unauthorized));
    let mut token = sample_token(None);
    token.used_at = Some("2020-01-01T00:00:00Z".into());
    assert_eq!(enroll(token, Some(sample_request(None))), Err(StatusCode::Unauthorized));
}

#[test]
fn names_of_headers_are_tokens() {
    assert!(names_are_tokens(&names()));
    for bad in ["", "X Nonce", "X-Nonce:", "\"X\"", "\u{e9}", "X-Nonce\n"] {
        assert!(!names_are_tokens(&SigningHeaders { nonce: bad.into(), ..names() }));
    }
    let long = "x".repeat(65536);
    assert!(!names_are_tokens(&SigningHeaders { agent_id: long, ..names() }));
}
