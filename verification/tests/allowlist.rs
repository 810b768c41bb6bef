use axum::http::HeaderMap;
use axum::http::HeaderValue;
use propylaea::allowlist::canonicalize_agent_path;
use propylaea::allowlist::is_allowed_agent_route;
use propylaea::allowlist::is_enroll_route;
use propylaea::allowlist::is_forwardable_request_header;
use propylaea::allowlist::is_forwardable_response_header;
use propylaea::allowlist::is_release_artifact_route;
use propylaea::allowlist::max_body_bytes;
use propylaea::allowlist::retain_forwardable_request_headers;
use propylaea::allowlist::retain_forwardable_response_headers;
use propylaea::web::Method;

#[test]
fn allowlist_accepts_core_agent_routes() {
    assert!(is_allowed_agent_route(&Method::Get, "/api/v1/agent/pull", false));
    assert!(is_allowed_agent_route(
        &Method::Put,
        "/api/v1/agent/commands/00000000-0000-0000-0000-000000000001/artifact",
        false
    ));
    assert!(!is_allowed_agent_route(&Method::Get, "/mcp", false));
    assert!(!is_allowed_agent_route(&Method::Get, "/internal/machines", false));
    assert!(!is_allowed_agent_route(&Method::Get, "/api/v1/admin/machines", false));
}

#[test]
fn allowlist_covers_every_release_component() {
    for component in ["agent", "proxy", "installer"] {
        let path = format!("/api/v1/agent/releases/1.2.3/artifact/{component}");
        assert!(
            is_allowed_agent_route(&Method::Get, &path, true),
            "missing allow for {path}"
        );
    }
    assert!(is_allowed_agent_route(
        &Method::Get,
        "/api/v1/agent/releases/1.2.3/proxmox-artifact",
        true
    ));
}

#[test]
fn release_artifacts_are_only_downloaded() {
    let path = "/api/v1/agent/releases/1.2.3/proxmox-artifact";
    assert!(!is_allowed_agent_route(&Method::Get, path, false));
    assert!(!is_allowed_agent_route(&Method::Post, path, true));
    assert!(!is_allowed_agent_route(&Method::Get, "/api/../x", true));
    assert!(is_release_artifact_route(&Method::Get, true));
    assert!(!is_release_artifact_route(&Method::Get, false));
    assert!(!is_release_artifact_route(&Method::Put, true));
}

#[test]
fn rejects_path_traversal() {
    assert!(!is_allowed_agent_route(
        &Method::Get,
        "/api/v1/agent/commands/x/../../../../../internal/commands/00000000-0000-0000-0000-000000000001/artifact",
        false
    ));
    assert!(canonicalize_agent_path("/api/v1/agent/pull/%2e%2e/admin").is_err());
}

#[test]
fn paths_are_canonical_or_refused() {
    for path in ["/", "/a", "/a/b.c", "/api/v1/agent/pull", "/a/.b"] {
        assert_eq!(canonicalize_agent_path(path), Ok(path.to_string()));
    }
    for path in [
        "", "a", "a/b", "/a\\b", "/a//b", "/a/./b", "/a/..", "/a..b", "/a/.", "/.", "/%2E", "/%2f", "/%5C",
    ] {
        assert_eq!(canonicalize_agent_path(path), Err(()));
    }
}

#[test]
fn every_fixed_route_has_its_method() {
    for path in [
        "/api/v1/agent/enroll",
        "/api/v1/agent/credentials/rotate",
        "/api/v1/agent/update-offer",
        "/api/v1/agent/results",
        "/api/v1/agent/heartbeat",
    ] {
        assert!(is_allowed_agent_route(&Method::Post, path, false));
        assert!(!is_allowed_agent_route(&Method::Get, path, false));
        assert!(!is_allowed_agent_route(&Method::Other, path, false));
    }
    for path in ["/api/v1/agent/status", "/api/v1/agent/pull"] {
        assert!(is_allowed_agent_route(&Method::Get, path, false));
        assert!(!is_allowed_agent_route(&Method::Post, path, false));
    }
}

#[test]
fn command_artifacts_need_an_identifier() {
    let good = "/api/v1/agent/commands/550e8400-e29b-41d4-a716-446655440000/artifact";
    assert!(is_allowed_agent_route(&Method::Get, good, false));
    assert!(is_allowed_agent_route(&Method::Put, good, false));
    assert!(!is_allowed_agent_route(&Method::Post, good, false));
    for path in [
        "/api/v1/agent/commands/x/artifact",
        "/api/v1/agent/commands/550e8400-e29b-41d4-a716-446655440000",
        "/api/v1/agent/commands/550e8400-e29b-41d4-a716-446655440000/other",
        "/api/v1/agent/commands/550e8400-e29b-41d4-a716-446655440000/artifact/more",
        "/api/v1/agent/commands/550e8400-e29b-41d4-a716-44665544000g/artifact",
    ] {
        assert!(!is_allowed_agent_route(&Method::Get, path, false));
    }
}

#[test]
fn body_limits() {
    let artifact = "/api/v1/agent/commands/550e8400-e29b-41d4-a716-446655440000/artifact";
    assert_eq!(max_body_bytes(&Method::Put, artifact, 77), 77);
    assert_eq!(max_body_bytes(&Method::Get, artifact, 77), 2 * 1024 * 1024);
    assert_eq!(max_body_bytes(&Method::Post, "/api/v1/agent/enroll", 77), 1024 * 1024);
    assert_eq!(max_body_bytes(&Method::Post, "/api/v1/agent/results", 77), 2 * 1024 * 1024);
    assert!(is_enroll_route(&Method::Post, "/api/v1/agent/enroll"));
    assert!(!is_enroll_route(&Method::Get, "/api/v1/agent/enroll"));
}

#[test]
fn strips_hop_by_hop_and_cookie_response_headers() {
    let mut headers = HeaderMap::new();
    headers.insert("content-type", "application/octet-stream".parse().unwrap());
    headers.insert("set-cookie", "session=1".parse().unwrap());
    headers.insert("location", "http://127.0.0.1/internal".parse().unwrap());
    headers.insert("connection", "close".parse().unwrap());
    headers.insert("x-hecate-nonce", "abc".parse().unwrap());
    retain_forwardable_response_headers(&mut headers);
    assert!(headers.get("content-type").is_some());
    assert!(headers.get("x-hecate-nonce").is_some());
    assert!(headers.get("set-cookie").is_none());
    assert!(headers.get("location").is_none());
    assert!(headers.get("connection").is_none());
}

#[test]
fn request_headers_are_filtered_once_and_for_all() {
    let mut headers = HeaderMap::new();
    headers.insert("Content-Type", HeaderValue::from_static("text/plain"));
    headers.insert("accept", HeaderValue::from_static("*/*"));
    headers.append("accept", HeaderValue::from_static("text/html"));
    headers.insert("cookie", HeaderValue::from_static("a=b"));
    headers.insert("x-forwarded-for", HeaderValue::from_static("1.2.3.4"));
    headers.insert("x-hecate-proxy-id", HeaderValue::from_static("forged"));
    headers.insert("x-hecate-signature", HeaderValue::from_static("s"));
    retain_forwardable_request_headers(&mut headers);
    assert_eq!(headers.keys_len(), 3);
    assert_eq!(headers.get_all("accept").iter().count(), 2);
    assert!(headers.contains_key("content-type"));
    assert!(headers.contains_key("x-hecate-signature"));
    let once = headers.clone();
    retain_forwardable_request_headers(&mut headers);
    assert_eq!(headers, once);
}

#[test]
fn header_names_in_any_case() {
    assert!(is_forwardable_request_header("If-None-Match"));
    assert!(!is_forwardable_request_header("Host"));
    assert!(is_forwardable_response_header("X-Hecate-Anything"));
    assert!(is_forwardable_response_header("ETag"));
    assert!(!is_forwardable_response_header("x-hecate"));
}
