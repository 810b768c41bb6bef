use axum::http::HeaderMap;
use axum::http::HeaderValue;
use propylaea::artifact_cache::BlobFile;
use propylaea::clock::UtcTime;
use propylaea::config::Config;
use propylaea::config::IpCidr;
use propylaea::crypto::hmac_sha256_hex;
use propylaea::crypto::ProxyKeypair;
use propylaea::gateway::authorize;
use propylaea::gateway::authorize_at;
use propylaea::gateway::blob_missing;
use propylaea::gateway::fill_in_progress;
use propylaea::gateway::finish_enroll;
use propylaea::gateway::refusal;
use propylaea::gateway::screen_request;
use propylaea::gateway::screen_request_at;
use propylaea::gateway::screening_reply;
use propylaea::gateway::status_message;
use propylaea::gateway::upstream_failure;
use propylaea::gateway::Credentials;
use propylaea::gateway::EnrollResponse;
use propylaea::gateway::RequestHead;
use propylaea::gateway::Screening;
use propylaea::ip::parse_ip;
use propylaea::ip::IpAddr;
use propylaea::records::AgentState;
use propylaea::records::ProxySyncEnrollmentToken;
use propylaea::state::AppState;
use propylaea::sync::apply_sync;
use propylaea::sync::ProxySyncResponse;
use propylaea::validate::precheck_enroll_at;
use propylaea::validate::verify_signed_agent_request_at;
use propylaea::validate::EnrollRequest;
use propylaea::validate::SignedFields;
use propylaea::web::Method;
use propylaea::web::StatusCode;

const PEPPER: &str = "dev-api-key-pepper-change-me";
const NOW: UtcTime = UtcTime { secs: 1_000_000, nanos: 0 };

fn state() -> AppState {
    let config = Config {
        bind_addr: "127.0.0.1:8080".into(),
        upstream_hecate_url: "https://hecate.example".into(),
        api_key_pepper: PEPPER.into(),
        key_path: "proxy.key".into(),
        proxy_id_path: "proxy_id".into(),
        enrollment_token: None,
        reported_hostname: "edge".into(),
        sync_interval_secs: 30,
        heartbeat_interval_secs: 60,
        insecure_skip_tls_verify: false,
        cache_enabled: true,
        cache_dir: "cache".into(),
        cache_max_bytes: 1024,
        trusted_proxy_cidrs: vec![IpCidr::parse("127.0.0.0/8").unwrap()],
    };
    AppState::new(config, ProxyKeypair::generate(), None, &Vec::<BlobFile>::new())
        .unwrap_or_else(|_| panic!("no identity is stored"))
}

fn ready() -> AppState {
    let mut s = state();
    s.set_forwarding(true);
    s
}

fn peer() -> IpAddr {
    parse_ip("127.0.0.1").unwrap()
}

fn head(method: Method, path: &str) -> RequestHead {
    RequestHead { method, path: path.into(), release_artifact: false, body_len: 0 }
}

fn enroll_head() -> RequestHead {
    head(Method::Post, "/api/v1/agent/enroll")
}

fn pull() -> RequestHead {
    head(Method::Get, "/api/v1/agent/pull")
}

fn screen(s: &mut AppState, request: &RequestHead) -> Screening {
    screen_request_at(s, &peer(), request, &HeaderMap::new(), 100, 0)
}

#[test]
fn the_order_of_the_screening() {
    let mut s = state();
    assert_eq!(screen(&mut s, &head(Method::Get, "/mcp")), Screening::NotFound);
    assert_eq!(screen(&mut s, &head(Method::Get, "/api/v1/agent/pull/..")), Screening::NotFound);
    assert_eq!(screen(&mut s, &pull()), Screening::NotReady);
    s.set_forwarding(true);
    assert_eq!(screen(&mut s, &pull()), Screening::Pass { enroll: false });
    assert_eq!(screen(&mut s, &enroll_head()), Screening::Pass { enroll: true });
    let mut large = pull();
    large.body_len = 2 * 1024 * 1024 + 1;
    assert_eq!(screen(&mut s, &large), Screening::TooLarge);
    large.body_len -= 1;
    assert_eq!(screen(&mut s, &large), Screening::Pass { enroll: false });
    let mut file = head(
        Method::Put,
        "/api/v1/agent/commands/550e8400-e29b-41d4-a716-446655440000/artifact",
    );
    file.body_len = 101;
    assert_eq!(screen(&mut s, &file), Screening::TooLarge);
    file.body_len = 100;
    assert_eq!(screen(&mut s, &file), Screening::Pass { enroll: false });
    let mut release = head(Method::Get, "/api/v1/agent/releases/1.2.3/proxmox-artifact");
    assert_eq!(screen(&mut s, &release), Screening::NotFound);
    release.release_artifact = true;
    assert_eq!(screen(&mut s, &release), Screening::Pass { enroll: false });
}

#[test]
fn a_proxy_that_is_not_ready_costs_no_quota() {
    let mut s = state();
    for _ in 0..100 {
        assert_eq!(screen(&mut s, &enroll_head()), Screening::NotReady);
    }
    s.set_forwarding(true);
    for _ in 0..10 {
        assert_eq!(screen(&mut s, &enroll_head()), Screening::Pass { enroll: true });
    }
    assert_eq!(screen(&mut s, &enroll_head()), Screening::RateLimited);
}

#[test]
fn traffic_does_not_block_enrollment() {
    let mut s = ready();
    for _ in 0..120 {
        assert_eq!(screen(&mut s, &pull()), Screening::Pass { enroll: false });
    }
    assert_eq!(screen(&mut s, &pull()), Screening::RateLimited);
    assert_eq!(screen(&mut s, &enroll_head()), Screening::Pass { enroll: true });
}

#[test]
fn clients_behind_a_trusted_proxy_are_told_apart() {
    let mut s = ready();
    let mut from = |client: &'static str| {
        let mut headers = HeaderMap::new();
        headers.insert("x-forwarded-for", HeaderValue::from_static(client));
        screen_request(&mut s, &peer(), &enroll_head(), &headers, 100)
    };
    for _ in 0..10 {
        assert_eq!(from("203.0.113.1"), Screening::Pass { enroll: true });
    }
    assert_eq!(from("203.0.113.1"), Screening::RateLimited);
    assert_eq!(from("203.0.113.2"), Screening::Pass { enroll: true });
}

#[test]
fn replies() {
    let reply = |s: Screening| screening_reply(s).unwrap();
    assert_eq!(reply(Screening::NotFound).status.as_u16(), 404);
    assert_eq!(reply(Screening::NotFound).message, "not found");
    assert_eq!(reply(Screening::NotReady).status.as_u16(), 503);
    assert_eq!(
        reply(Screening::NotReady).message,
        "proxy not ready (awaiting enrollment/approval or sync)"
    );
    assert_eq!(reply(Screening::RateLimited).status.as_u16(), 429);
    assert_eq!(reply(Screening::TooLarge).status.as_u16(), 413);
    assert!(screening_reply(Screening::Pass { enroll: true }).is_none());
    assert_eq!(refusal(StatusCode::Unauthorized).message, "unauthorized");
    assert_eq!(status_message(StatusCode::Forbidden), "forbidden");
    assert_eq!(status_message(StatusCode::BadRequest), "bad request");
    assert_eq!(status_message(StatusCode::PayloadTooLarge), "body too large");
    assert_eq!(status_message(StatusCode::NotFound), "rejected");
    assert_eq!(upstream_failure().status.as_u16(), 502);
    assert_eq!(fill_in_progress().retry_after, Some(30));
    assert_eq!(blob_missing().message, "cached blob missing");
    assert_eq!(StatusCode::BadRequest.as_u16(), 400);
    assert_eq!(StatusCode::Unauthorized.as_u16(), 401);
    assert_eq!(StatusCode::Forbidden.as_u16(), 403);
}

#[test]
fn credentials_of_the_wrong_kind_count_for_nothing() {
    let mut s = ready();
    let mut status = |enroll: bool, credentials: Credentials| {
        authorize(&mut s, enroll, &credentials).unwrap().status
    };
    assert_eq!(status(true, Credentials::Missing), StatusCode::Unauthorized);
    assert_eq!(status(false, Credentials::Missing), StatusCode::Unauthorized);
    assert_eq!(status(true, Credentials::Enroll(None)), StatusCode::BadRequest);
    assert_eq!(status(false, Credentials::Enroll(None)), StatusCode::Unauthorized);
    let key = ProxyKeypair::generate();
    s.upsert_agent_from_enroll(5, &key.public_key_b64(), AgentState::Admitted);
    let signed = |nonce: &str| {
        Credentials::Signed(
            SignedFields {
                agent_id: 5,
                timestamp_ms: 1_000_000_000,
                nonce: nonce.into(),
                signature: key.sign(b"m"),
            },
            b"m".to_vec(),
        )
    };
    assert!(authorize_at(&mut s, true, &signed("a"), &NOW, 0).is_some());
    assert!(authorize_at(&mut s, false, &signed("a"), &NOW, 0).is_none());
    assert_eq!(
        authorize_at(&mut s, false, &signed("a"), &NOW, 0).unwrap().message,
        "unauthorized"
    );
}

#[test]
fn an_enrolled_agent_is_known_and_its_token_spent() {
    let token = format!("enr_{}", "a".repeat(48));
    let key = ProxyKeypair::generate();
    let request = Some(EnrollRequest {
        enrollment_token: token.clone(),
        agent_id: None,
        public_key: format!(" {} ", key.public_key_b64()),
    });
    let mut s = state();
    apply_sync(
        &mut s,
        &ProxySyncResponse {
            agents: vec![],
            enrollment_tokens: vec![ProxySyncEnrollmentToken {
                token_hmac: hmac_sha256_hex(PEPPER, &token),
                expires_at: "2099-01-01T00:00:00Z".into(),
                used_at: None,
                bound_machine_id: None,
                bound_proxy_id: None,
            }],
            proxy_enrollment_tokens: vec![],
        },
    );
    let response = Some(EnrollResponse { agent_id: 77, state: AgentState::Admitted });
    assert_eq!(precheck_enroll_at(&s, &request, &NOW), Ok(()));
    finish_enroll(&mut s, 500, &request, &response);
    assert_eq!(precheck_enroll_at(&s, &request, &NOW), Ok(()));
    finish_enroll(&mut s, 201, &request, &response);
    assert_eq!(precheck_enroll_at(&s, &request, &NOW), Err(StatusCode::Unauthorized));
    let fields = SignedFields {
        agent_id: 77,
        timestamp_ms: 1_000_000_000,
        nonce: "n".into(),
        signature: key.sign(b"m"),
    };
    assert_eq!(verify_signed_agent_request_at(&mut s, &fields, b"m", &NOW, 0), Ok(()));
    finish_enroll(&mut s, 200, &None, &response);
}
