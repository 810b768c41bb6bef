use propylaea::artifact_cache::BlobFile;
use propylaea::config::Config;
use propylaea::crypto::hmac_sha256_hex;
use propylaea::crypto::ProxyKeypair;
use propylaea::records::AgentState;
use propylaea::records::ProxySyncEnrollmentToken;
use propylaea::state::AppState;
use propylaea::sync::accept_enrollment;
use propylaea::sync::after_reenroll;
use propylaea::sync::apply_sync;
use propylaea::sync::bootstrap;
use propylaea::sync::confirm_reenroll;
use propylaea::sync::enroll_failure;
use propylaea::sync::enroll_if_needed;
use propylaea::sync::enroll_reply;
use propylaea::sync::heartbeat_at;
use propylaea::sync::heartbeat_once;
use propylaea::sync::heartbeat_reply;
use propylaea::sync::reenroll_if_needed;
use propylaea::sync::reenroll_request;
use propylaea::sync::run_once;
use propylaea::sync::should_reset_identity_for_enroll;
use propylaea::sync::sync_reply;
use propylaea::sync::AfterReenroll;
use propylaea::sync::BootstrapStep;
use propylaea::sync::EnrollReply;
use propylaea::sync::ProxyEnrollResponse;
use propylaea::sync::ProxyState;
use propylaea::sync::ProxySyncAgent;
use propylaea::sync::ProxySyncResponse;
use propylaea::sync::SyncError;
use propylaea::validate::verify_signed_agent_request_at;
use propylaea::validate::SignedFields;
use propylaea::web::StatusCode;

const PEPPER: &str = "dev-api-key-pepper-change-me";
const ID: u128 = 0x550e8400_e29b_41d4_a716_446655440000;

fn state(token: Option<&str>, id: Option<&str>) -> AppState {
    let config = Config {
        bind_addr: "127.0.0.1:8080".into(),
        upstream_hecate_url: "https://hecate.example".into(),
        api_key_pepper: PEPPER.into(),
        key_path: "proxy.key".into(),
        proxy_id_path: "proxy_id".into(),
        enrollment_token: token.map(|t| t.to_string()),
        reported_hostname: "edge".into(),
        sync_interval_secs: 30,
        heartbeat_interval_secs: 60,
        insecure_skip_tls_verify: false,
        cache_enabled: true,
        cache_dir: "cache".into(),
        cache_max_bytes: 1024,
        trusted_proxy_cidrs: vec![],
    };
    AppState::new(config, ProxyKeypair::generate(), id, &Vec::<BlobFile>::new())
        .unwrap_or_else(|_| panic!("a sound identity"))
}

const ID_TEXT: &str = "550e8400-e29b-41d4-a716-446655440000";

fn proxy_token(bound_proxy_id: Option<u128>) -> ProxySyncEnrollmentToken {
    ProxySyncEnrollmentToken {
        token_hmac: hmac_sha256_hex(PEPPER, "penr_x"),
        expires_at: "2099-01-01T00:00:00Z".into(),
        used_at: None,
        bound_machine_id: None,
        bound_proxy_id,
    }
}

fn announce(state: &mut AppState, agents: Vec<ProxySyncAgent>, proxy: Vec<ProxySyncEnrollmentToken>) {
    apply_sync(
        state,
        &ProxySyncResponse {
            agents,
            enrollment_tokens: vec![],
            proxy_enrollment_tokens: proxy,
        },
    );
}

#[test]
fn how_the_proxy_begins() {
    assert_eq!(bootstrap(&state(None, None)), BootstrapStep::Enroll);
    assert_eq!(bootstrap(&state(Some("penr_x"), None)), BootstrapStep::Enroll);
    assert_eq!(bootstrap(&state(Some("penr_x"), Some(ID_TEXT))), BootstrapStep::Reenroll);
    assert_eq!(bootstrap(&state(None, Some(ID_TEXT))), BootstrapStep::Sync);
}

#[test]
fn enrolling_needs_a_token() {
    assert!(matches!(
        enroll_if_needed(&state(None, None), "1.0"),
        Err(SyncError::TokenRequired)
    ));
    let s = state(Some("penr_x"), None);
    let q = enroll_if_needed(&s, "1.0").unwrap_or_else(|_| panic!("a token"));
    assert_eq!(q.enrollment_token, "penr_x");
    assert_eq!(q.proxy_id, None);
    assert_eq!(q.public_key, s.keypair().public_key_b64());
    assert_eq!(q.hostname, "edge");
    assert_eq!(q.version, "1.0");
}

#[test]
fn enrolling_again_takes_a_fresh_key() {
    let mut s = state(Some("penr_x"), Some(ID_TEXT));
    let target = match reenroll_if_needed(&s) {
        Ok(Some(t)) => t,
        _ => panic!("a token and an identity"),
    };
    assert_eq!(target.token, "penr_x");
    assert_eq!(target.proxy_id, ID);
    let fresh = ProxyKeypair::generate();
    let public = fresh.public_key_b64();
    let q = reenroll_request(&mut s, &target, fresh, "1.0");
    assert_eq!(q.public_key, public);
    assert_eq!(q.proxy_id, Some(ID));
    assert_eq!(s.keypair().public_key_b64(), public);
}

#[test]
fn a_token_for_another_proxy_is_not_tried() {
    let mut s = state(Some("penr_x"), Some(ID_TEXT));
    announce(&mut s, vec![], vec![proxy_token(Some(1))]);
    assert!(matches!(reenroll_if_needed(&s), Err(SyncError::BoundElsewhere)));
    announce(&mut s, vec![], vec![proxy_token(Some(ID))]);
    assert!(matches!(reenroll_if_needed(&s), Ok(Some(_))));
    announce(&mut s, vec![], vec![proxy_token(None)]);
    assert!(matches!(reenroll_if_needed(&s), Ok(Some(_))));
    assert!(matches!(reenroll_if_needed(&state(None, Some(ID_TEXT))), Ok(None)));
    assert!(matches!(reenroll_if_needed(&state(Some("penr_x"), None)), Ok(None)));
}

#[test]
fn answers_to_an_enrollment() {
    assert_eq!(
        enroll_reply(401, Some(5)),
        EnrollReply::Keep(ProxyEnrollResponse { proxy_id: 5, state: ProxyState::Active })
    );
    assert_eq!(enroll_reply(401, None), EnrollReply::Failed);
    assert_eq!(enroll_reply(201, None), EnrollReply::Accepted);
    assert_eq!(enroll_reply(500, Some(5)), EnrollReply::Failed);
}

#[test]
fn an_accepted_enrollment() {
    let mut s = state(Some("penr_x"), None);
    s.set_forwarding(true);
    accept_enrollment(&mut s, None, &ProxyEnrollResponse { proxy_id: 9, state: ProxyState::Active });
    assert_eq!(s.proxy_id(), Some(9));
    assert!(s.forwarding_enabled());
    accept_enrollment(&mut s, None, &ProxyEnrollResponse { proxy_id: 8, state: ProxyState::Inactive });
    assert_eq!(s.proxy_id(), Some(8));
    assert!(!s.forwarding_enabled());
    accept_enrollment(&mut s, Some(8), &ProxyEnrollResponse { proxy_id: 7, state: ProxyState::Active });
    assert_eq!(s.proxy_id(), Some(8));
    let response = ProxyEnrollResponse { proxy_id: 7, state: ProxyState::Active };
    assert_eq!(confirm_reenroll(7, &response), Ok(()));
    assert_eq!(confirm_reenroll(8, &response), Err(SyncError::IdentityChanged));
}

#[test]
fn rejected_enrollments_reset_the_identity() {
    for status in [400, 401, 404] {
        let message = enroll_failure(status, "whatever").message();
        assert!(should_reset_identity_for_enroll(&message), "{message}");
        assert_eq!(after_reenroll(Some(&message)), AfterReenroll::ResetAndEnroll);
    }
    for status in [402, 403, 409, 500, 503] {
        let message = enroll_failure(status, "whatever").message();
        assert!(!should_reset_identity_for_enroll(&message), "{message}");
        assert_eq!(after_reenroll(Some(&message)), AfterReenroll::Fail);
    }
    let message = enroll_failure(409, "proxy_id must not be set for a generic enrollment token");
    assert!(should_reset_identity_for_enroll(&message.message()));
    assert_eq!(after_reenroll(None), AfterReenroll::Sync);
    assert_eq!(
        enroll_failure(400, "no").message(),
        "proxy enroll failed: 400 Bad Request no"
    );
    assert_eq!(
        enroll_failure(799, "no").message(),
        "proxy enroll failed: 799 <unknown status code> no"
    );
}

#[test]
fn a_forbidden_proxy_forwards_nothing() {
    let mut s = state(None, Some(ID_TEXT));
    assert_eq!(run_once(&s), Ok(ID));
    assert_eq!(run_once(&state(None, None)), Err(SyncError::NotEnrolled));
    s.set_forwarding(true);
    assert_eq!(
        sync_reply(&mut s, 500, "oops"),
        Err(SyncError::Failed("proxy sync failed: 500 Internal Server Error oops".into()))
    );
    assert!(s.forwarding_enabled());
    assert_eq!(sync_reply(&mut s, 200, ""), Ok(()));
    assert_eq!(sync_reply(&mut s, 403, "no"), Err(SyncError::SyncForbidden));
    assert!(!s.forwarding_enabled());
    s.set_forwarding(true);
    assert_eq!(heartbeat_reply(&mut s, 204, ""), Ok(()));
    assert_eq!(
        heartbeat_reply(&mut s, 404, "x"),
        Err(SyncError::Failed("proxy heartbeat failed: 404 Not Found x".into()))
    );
    assert!(s.forwarding_enabled());
    assert_eq!(heartbeat_reply(&mut s, 403, ""), Err(SyncError::HeartbeatForbidden));
    assert!(!s.forwarding_enabled());
}

#[test]
fn heartbeats() {
    let mut s = state(None, Some(ID_TEXT));
    assert!(heartbeat_once(&s, "1.0").is_none());
    s.set_forwarding(true);
    let (id, q) = heartbeat_once(&s, "1.0").unwrap();
    assert_eq!(id, ID);
    assert_eq!(q.version, "1.0");
    assert_eq!(q.hostname, "edge");
    assert!(q.uptime_secs < 3600);
    let (_, q) = heartbeat_at(&s, "1.0", 7_999_999_999).unwrap();
    assert_eq!(q.uptime_secs, 7);
    let mut nobody = state(None, None);
    nobody.set_forwarding(true);
    assert!(heartbeat_once(&nobody, "1.0").is_none());
}

#[test]
fn a_synchronization_replaces_what_was_known() {
    let key = ProxyKeypair::generate();
    let agent = |id: u128| ProxySyncAgent {
        agent_id: id,
        credential_pubkey: key.public_key_b64(),
        credential_pubkey_previous: None,
        credential_pubkey_previous_expires_at: None,
        state: AgentState::Admitted,
    };
    let verdict = |s: &mut AppState, id: u128| {
        let fields = SignedFields {
            agent_id: id,
            timestamp_ms: 0,
            nonce: "n".into(),
            signature: key.sign(b"m"),
        };
        let now = propylaea::clock::UtcTime { secs: 0, nanos: 0 };
        verify_signed_agent_request_at(s, &fields, b"m", &now, 0)
    };
    let mut s = state(None, Some(ID_TEXT));
    announce(&mut s, vec![agent(1), agent(2)], vec![]);
    assert!(s.forwarding_enabled());
    assert_eq!(verdict(&mut s, 1), Ok(()));
    let mut revoked = agent(2);
    revoked.state = AgentState::Revoked;
    announce(&mut s, vec![agent(2), revoked], vec![]);
    assert_eq!(verdict(&mut s, 1), Err(StatusCode::Unauthorized));
    assert_eq!(verdict(&mut s, 2), Err(StatusCode::Forbidden));
}

#[test]
fn errors_say_what_is_wrong() {
    assert_eq!(
        SyncError::TokenRequired.message(),
        "PROXY_ENROLLMENT_TOKEN required for first enroll (no proxy_id on disk)"
    );
    assert_eq!(
        SyncError::BoundElsewhere.message(),
        "enrollment token is bound to a different proxy"
    );
    assert_eq!(
        SyncError::SyncForbidden.message(),
        "proxy sync forbidden (pending approval or revoked)"
    );
}
