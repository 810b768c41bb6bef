use axum::http::HeaderMap;
use axum::http::HeaderValue;
use propylaea::artifact_cache::BlobFile;
use propylaea::config::Config;
use propylaea::crypto::ProxyKeypair;
use propylaea::forward::fill_request;
use propylaea::forward::forward_to_upstream;
use propylaea::forward::relay_response;
use propylaea::forward::relay_response_headers;
use propylaea::forward::relay_status;
use propylaea::forward::upstream_url;
use propylaea::forward::ForwardError;
use propylaea::state::AppState;

fn state(id: Option<&str>) -> AppState {
    let config = Config {
        bind_addr: "127.0.0.1:8080".into(),
        upstream_hecate_url: "https://hecate.example".into(),
        api_key_pepper: "dev-api-key-pepper-change-me".into(),
        key_path: "proxy.key".into(),
        proxy_id_path: "proxy_id".into(),
        enrollment_token: None,
        reported_hostname: "test".into(),
        sync_interval_secs: 30,
        heartbeat_interval_secs: 60,
        insecure_skip_tls_verify: false,
        cache_enabled: true,
        cache_dir: "cache".into(),
        cache_max_bytes: 1024,
        trusted_proxy_cidrs: vec![],
    };
    AppState::new(config, ProxyKeypair::generate(), id, &Vec::<BlobFile>::new())
        .unwrap_or_else(|_| panic!("a sound identity"))
}

const ID: &str = "550e8400-e29b-41d4-a716-446655440000";

fn request() -> HeaderMap {
    let mut headers = HeaderMap::new();
    headers.insert("host", HeaderValue::from_static("proxy"));
    headers.insert("content-length", HeaderValue::from_static("3"));
    headers.insert("connection", HeaderValue::from_static("close"));
    headers.insert("content-type", HeaderValue::from_static("text/plain"));
    headers.insert("x-hecate-proxy-id", HeaderValue::from_static("forged"));
    headers.insert("if-none-match", HeaderValue::from_static("\"old\""));
    headers
}

#[test]
fn urls() {
    assert_eq!(upstream_url("https://h", "/p", None), "https://h/p");
    assert_eq!(upstream_url("https://h", "/p", Some("")), "https://h/p");
    assert_eq!(upstream_url("https://h", "/p", Some("a=b")), "https://h/p?a=b");
}

#[test]
fn requests_carry_the_identity_of_the_proxy() {
    let mut headers = request();
    let url = forward_to_upstream(&state(Some(ID)), "/api/v1/agent/pull", Some("x=1"), &mut headers);
    assert_eq!(url.as_deref(), Ok("https://hecate.example/api/v1/agent/pull?x=1"));
    assert_eq!(headers.len(), 3);
    assert_eq!(headers.get("x-hecate-proxy-id").unwrap(), ID);
    assert_eq!(headers.get("content-type").unwrap(), "text/plain");
    assert_eq!(headers.get("if-none-match").unwrap(), "\"old\"");
}

#[test]
fn a_forged_identity_is_dropped() {
    let mut headers = request();
    forward_to_upstream(&state(None), "/p", None, &mut headers).unwrap();
    assert!(headers.get("x-hecate-proxy-id").is_none());
    assert!(headers.get("host").is_none());
}

#[test]
fn paths_are_checked_again() {
    let mut headers = request();
    let before = headers.clone();
    assert_eq!(
        forward_to_upstream(&state(None), "/a/../b", None, &mut headers),
        Err(ForwardError::InvalidPath)
    );
    assert_eq!(headers, before);
}

#[test]
fn fills_name_the_known_hashes() {
    let mut headers = request();
    let known: Vec<String> = (0..9).map(|i| format!("h{i}")).collect();
    let url = fill_request(&state(Some(ID)), "/p", None, &mut headers, &known);
    assert_eq!(url, "https://hecate.example/p");
    assert_eq!(
        headers.get("if-none-match").unwrap(),
        "\"h0\", \"h1\", \"h2\", \"h3\", \"h4\", \"h5\", \"h6\", \"h7\""
    );
    assert_eq!(headers.get("x-hecate-proxy-id").unwrap(), ID);
    assert_eq!(headers.len(), 3);
}

#[test]
fn fills_without_known_hashes_keep_the_condition_of_the_client() {
    let mut headers = request();
    fill_request(&state(None), "/p", Some("q"), &mut headers, &vec![]);
    assert_eq!(headers.get("if-none-match").unwrap(), "\"old\"");
    let mut headers = request();
    fill_request(&state(None), "/p", Some("q"), &mut headers, &vec!["a\nb".to_string()]);
    assert_eq!(headers.get("if-none-match").unwrap(), "\"old\"");
    let mut headers = request();
    fill_request(&state(None), "/p", Some("q"), &mut headers, &vec!["one".to_string()]);
    assert_eq!(headers.get("if-none-match").unwrap(), "\"one\"");
}

#[test]
fn responses_are_relayed_without_frames_and_cookies() {
    let mut upstream = HeaderMap::new();
    upstream.insert("content-type", HeaderValue::from_static("a/b"));
    upstream.append("x-hecate-many", HeaderValue::from_static("first"));
    upstream.append("x-hecate-many", HeaderValue::from_static("second"));
    upstream.append("x-hecate-many", HeaderValue::from_static("last"));
    upstream.insert("set-cookie", HeaderValue::from_static("s=1"));
    upstream.insert("transfer-encoding", HeaderValue::from_static("chunked"));
    upstream.insert("content-length", HeaderValue::from_static("7"));
    upstream.insert("location", HeaderValue::from_static("/internal"));
    upstream.insert("etag", HeaderValue::from_bytes(b"\"\xff\"").unwrap());
    let relayed = relay_response_headers(&upstream);
    assert_eq!(relayed.len(), 3);
    assert_eq!(relayed.get("content-type").unwrap(), "a/b");
    assert_eq!(relayed.get("x-hecate-many").unwrap(), "last");
    assert_eq!(relayed.get("etag").unwrap().as_bytes(), b"\"\xff\"");
}

#[test]
fn responses_with_too_many_names_are_not_relayed() {
    let mut upstream = HeaderMap::new();
    for i in 0..4095 {
        let name = axum::http::HeaderName::from_bytes(format!("x-hecate-{i}").as_bytes()).unwrap();
        upstream.insert(name, HeaderValue::from_static("v"));
    }
    let (status, headers) = relay_response(1000, &upstream).unwrap();
    assert_eq!(status, 502);
    assert_eq!(headers.len(), 4095);
    upstream.insert("x-one-more", HeaderValue::from_static("v"));
    assert!(relay_response(200, &upstream).is_none());
}

#[test]
fn statuses_are_relayed() {
    assert_eq!(relay_status(200), 200);
    assert_eq!(relay_status(999), 999);
    assert_eq!(relay_status(99), 502);
    assert_eq!(relay_status(1000), 502);
}
