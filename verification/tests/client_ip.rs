use axum::http::HeaderMap;
use axum::http::HeaderValue;
use propylaea::client_ip::resolve_client_ip;
use propylaea::config::IpCidr;
use propylaea::ip::parse_ip;
use propylaea::ip::IpAddr;

fn cidr_v4(addr: &str, prefix: u8) -> IpCidr {
    IpCidr::parse(&format!("{addr}/{prefix}")).unwrap()
}

/// The address of a socket address.
fn peer(socket: &str) -> IpAddr {
    let (addr, _port) = socket.rsplit_once(':').unwrap();
    parse_ip(addr).unwrap()
}

#[test]
fn trusted_proxy_uses_leftmost_forwarded_for() {
    let peer = peer("172.18.0.2:54321");
    let mut headers = HeaderMap::new();
    headers.insert(
        "x-forwarded-for",
        HeaderValue::from_static("203.0.113.10, 172.18.0.2"),
    );
    let trusted = vec![cidr_v4("172.16.0.0", 12)];
    assert_eq!(resolve_client_ip(&peer, &headers, &trusted), "203.0.113.10");
}

#[test]
fn untrusted_peer_ignores_forwarded_for() {
    let peer = peer("203.0.113.55:1234");
    let mut headers = HeaderMap::new();
    headers.insert("x-forwarded-for", HeaderValue::from_static("1.2.3.4"));
    let trusted = vec![cidr_v4("172.16.0.0", 12)];
    assert_eq!(resolve_client_ip(&peer, &headers, &trusted), "203.0.113.55");
}

#[test]
fn trusted_proxy_without_header_falls_back_to_peer() {
    let peer = peer("127.0.0.1:8080");
    let headers = HeaderMap::new();
    let trusted = vec![cidr_v4("127.0.0.0", 8)];
    assert_eq!(resolve_client_ip(&peer, &headers, &trusted), "127.0.0.1");
}

#[test]
fn what_is_no_address_is_not_believed() {
    let peer = peer("127.0.0.1:8080");
    let trusted = vec![cidr_v4("127.0.0.0", 8)];
    for value in ["", " ,1.2.3.4", "unknown", "1.2.3", "\u{e9}"] {
        let mut headers = HeaderMap::new();
        headers.insert("x-forwarded-for", HeaderValue::from_bytes(value.as_bytes()).unwrap());
        assert_eq!(resolve_client_ip(&peer, &headers, &trusted), "127.0.0.1");
    }
}

#[test]
fn the_first_header_counts_and_ipv6_is_normalized() {
    let peer = peer("127.0.0.1:8080");
    let trusted = vec![cidr_v4("127.0.0.0", 8)];
    let mut headers = HeaderMap::new();
    headers.append("x-forwarded-for", HeaderValue::from_static(" 2001:DB8:0:0:0:0:0:1 "));
    headers.append("x-forwarded-for", HeaderValue::from_static("1.2.3.4"));
    assert_eq!(resolve_client_ip(&peer, &headers, &trusted), "2001:db8::1");
}
