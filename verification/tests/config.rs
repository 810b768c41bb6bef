use propylaea::config::check_upstream;
use propylaea::config::parse_trusted_proxy_cidrs;
use propylaea::config::read_hostname_file;
use propylaea::config::resolve_reported_hostname;
use propylaea::config::validate_upstream_hecate_url;
use propylaea::config::CidrError;
use propylaea::config::Config;
use propylaea::config::ConfigError;
use propylaea::config::Environment;
use propylaea::config::IpCidr;
use propylaea::config::UpstreamError;
use propylaea::identity::ProxyIdentityPaths;
use propylaea::ip::parse_ip;

fn text(s: &str) -> Option<String> {
    Some(s.to_string())
}

fn sound() -> Environment {
    Environment {
        upstream_hecate_url: text("https://hecate.example:18443//"),
        api_key_pepper: text("0123456789abcdef"),
        insecure_skip_tls_verify: None,
        bind_addr: None,
        proxy_key_path: None,
        proxy_id_path: None,
        proxy_enrollment_token: None,
        sync_interval_secs: None,
        heartbeat_interval_secs: None,
        cache_enabled: None,
        cache_dir: None,
        cache_max_bytes: None,
        trusted_proxy_cidrs: None,
        propylaea_hostname: None,
        host_hostname_file: None,
        system_hostname: None,
        dangerous: false,
    }
}

fn fault(env: &Environment) -> ConfigError {
    match Config::from_env(env) {
        Ok(_) => panic!("expected a fault"),
        Err(e) => e,
    }
}

#[test]
fn read_hostname_file_takes_first_line() {
    assert_eq!(
        read_hostname_file("hecate-propylaea\nignored\n").as_deref(),
        Some("hecate-propylaea")
    );
}

#[test]
fn hostname_files_without_a_name() {
    assert_eq!(read_hostname_file(""), None);
    assert_eq!(read_hostname_file("\nname"), None);
    assert_eq!(read_hostname_file("  \t\r\nname"), None);
    assert_eq!(read_hostname_file(" name \r\n").as_deref(), Some("name"));
}

#[test]
fn upstream_url_requires_https_off_loopback() {
    validate_upstream_hecate_url("https://hecate.example:18443").unwrap();
    validate_upstream_hecate_url("http://host.docker.internal:8080").unwrap();
    validate_upstream_hecate_url("http://127.0.0.1:8080").unwrap();
    assert!(validate_upstream_hecate_url("http://hecate.example").is_err());
}

#[test]
fn the_loopback_address_of_ipv6_is_local() {
    assert_eq!(validate_upstream_hecate_url("http://[::1]:8080"), Ok(()));
    assert_eq!(validate_upstream_hecate_url("https://[::1]:8080"), Ok(()));
    assert_eq!(
        validate_upstream_hecate_url("http://[fd00::1]:8080"),
        Err(UpstreamError::Plain)
    );
}

#[test]
fn upstream_url_faults() {
    assert_eq!(validate_upstream_hecate_url("not a url"), Err(UpstreamError::Invalid));
    assert_eq!(validate_upstream_hecate_url("ftp://127.0.0.1"), Err(UpstreamError::Scheme));
    assert_eq!(validate_upstream_hecate_url("http://10.0.0.1"), Err(UpstreamError::Plain));
    assert_eq!(validate_upstream_hecate_url("http://a.LOCALHOST:1"), Ok(()));
    assert_eq!(check_upstream(&None), Err(UpstreamError::Invalid));
    assert_eq!(check_upstream(&Some(("http".to_string(), text("::1")))), Ok(()));
    assert_eq!(check_upstream(&Some(("http".to_string(), text("[::1]")))), Ok(()));
    assert_eq!(
        check_upstream(&Some(("http".to_string(), text("[::2]")))),
        Err(UpstreamError::Plain)
    );
    assert_eq!(check_upstream(&Some(("http".to_string(), None))), Err(UpstreamError::Plain));
    assert_eq!(check_upstream(&Some(("https".to_string(), None))), Ok(()));
}

#[test]
fn cidr_contains_ipv4() {
    let cidr = IpCidr::parse("172.16.0.0/12").unwrap();
    assert!(cidr.contains(parse_ip("172.18.0.2").unwrap()));
    assert!(!cidr.contains(parse_ip("203.0.113.1").unwrap()));
}

#[test]
fn cidr_edges() {
    let all = IpCidr::parse("1.2.3.4/0").unwrap();
    assert!(all.contains(parse_ip("255.255.255.255").unwrap()));
    assert!(!all.contains(parse_ip("::1").unwrap()));
    let one = IpCidr::parse("1.2.3.4/32").unwrap();
    assert!(one.contains(parse_ip("1.2.3.4").unwrap()));
    assert!(!one.contains(parse_ip("1.2.3.5").unwrap()));
    let half = IpCidr::parse("1.2.3.4/31").unwrap();
    assert!(half.contains(parse_ip("1.2.3.5").unwrap()));
    assert!(!half.contains(parse_ip("1.2.3.6").unwrap()));
    let six = IpCidr::parse("fc00::/7").unwrap();
    assert!(six.contains(parse_ip("fdff::1").unwrap()));
    assert!(!six.contains(parse_ip("fe00::1").unwrap()));
    assert!(IpCidr::parse("::/0").unwrap().contains(parse_ip("ffff::").unwrap()));
    assert!(!IpCidr::parse("::1/128").unwrap().contains(parse_ip("::2").unwrap()));
}

#[test]
fn cidr_faults() {
    assert_eq!(IpCidr::parse("1.2.3.4"), Err(CidrError::Form));
    assert_eq!(IpCidr::parse("x/8"), Err(CidrError::Address("x".to_string())));
    assert_eq!(IpCidr::parse("1.2.3.4/x"), Err(CidrError::Prefix("x".to_string())));
    assert_eq!(IpCidr::parse("1.2.3.4/256"), Err(CidrError::Prefix("256".to_string())));
    assert_eq!(IpCidr::parse("1.2.3.4/8/8"), Err(CidrError::Prefix("8/8".to_string())));
    let long = IpCidr::parse("1.2.3.4/33").unwrap_err();
    assert_eq!(long, CidrError::TooLong(33, 32, parse_ip("1.2.3.4").unwrap()));
    assert_eq!(long.message(), "CIDR prefix 33 exceeds max 32 for 1.2.3.4");
    assert_eq!(CidrError::Address("x".to_string()).message(), "invalid CIDR address: x");
    assert_eq!(CidrError::Prefix("y".to_string()).message(), "invalid CIDR prefix: y");
    assert_eq!(CidrError::Form.message(), "CIDR must be in address/prefix form");
    assert!(IpCidr::parse("::1/129").is_err());
}

#[test]
fn default_ranges_are_loopback_and_private() {
    let expected: Vec<IpCidr> = [
        "127.0.0.0/8",
        "10.0.0.0/8",
        "172.16.0.0/12",
        "192.168.0.0/16",
        "::1/128",
        "fc00::/7",
    ]
    .iter()
    .map(|raw| IpCidr::parse(raw).unwrap())
    .collect();
    assert_eq!(parse_trusted_proxy_cidrs(&None).unwrap(), expected);
    assert_eq!(parse_trusted_proxy_cidrs(&text("  ")).unwrap(), expected);
}

#[test]
fn configured_ranges_are_listed_in_order() {
    let list = parse_trusted_proxy_cidrs(&text(" 1.0.0.0/8 ,, ::1/128,")).unwrap();
    assert_eq!(list, vec![IpCidr::parse("1.0.0.0/8").unwrap(), IpCidr::parse("::1/128").unwrap()]);
    assert_eq!(parse_trusted_proxy_cidrs(&text(",")).unwrap(), vec![]);
    assert_eq!(
        parse_trusted_proxy_cidrs(&text("1.0.0.0/8,a/1,b")),
        Err(CidrError::Address("a".to_string()))
    );
}

#[test]
fn hostnames_in_their_order() {
    let none: Option<String> = None;
    assert_eq!(resolve_reported_hostname(&text("host\n"), &text("var"), &text("sys")), "host");
    assert_eq!(resolve_reported_hostname(&text(" \n"), &text(" var "), &text("sys")), "var");
    assert_eq!(resolve_reported_hostname(&none, &text(" "), &text("sys")), "sys");
    assert_eq!(resolve_reported_hostname(&none, &none, &text("")), "propylaea");
}

#[test]
fn a_sound_environment() {
    let c = Config::from_env(&sound()).unwrap_or_else(|_| panic!("sound"));
    assert_eq!(c.upstream_hecate_url, "https://hecate.example:18443");
    assert_eq!(c.api_key_pepper, "0123456789abcdef");
    assert_eq!(c.bind_addr, "0.0.0.0:8080");
    assert_eq!(c.key_path, "/var/lib/hecate-propylaea/proxy.key");
    assert_eq!(c.proxy_id_path, "/var/lib/hecate-propylaea/proxy_id");
    assert_eq!(c.enrollment_token, None);
    assert_eq!(c.reported_hostname, "propylaea");
    assert_eq!(c.sync_interval_secs, 30);
    assert_eq!(c.heartbeat_interval_secs, 60);
    assert!(!c.insecure_skip_tls_verify);
    assert!(c.cache_enabled);
    assert_eq!(c.cache_dir, "/var/lib/hecate-propylaea/cache");
    assert_eq!(c.cache_max_bytes, 4 * 1024 * 1024 * 1024);
    assert_eq!(c.trusted_proxy_cidrs.len(), 6);
}

#[test]
fn a_configured_environment() {
    let mut env = sound();
    env.insecure_skip_tls_verify = text("TRUE");
    env.dangerous = true;
    env.bind_addr = text("127.0.0.1:1");
    env.proxy_enrollment_token = text("penr_x");
    env.sync_interval_secs = text("5");
    env.heartbeat_interval_secs = text("soon");
    env.cache_enabled = text("False");
    env.cache_max_bytes = text("+100");
    env.trusted_proxy_cidrs = text("1.0.0.0/8");
    let c = Config::from_env(&env).unwrap_or_else(|_| panic!("sound"));
    assert!(c.insecure_skip_tls_verify);
    assert_eq!(c.bind_addr, "127.0.0.1:1");
    assert_eq!(c.enrollment_token.as_deref(), Some("penr_x"));
    assert_eq!(c.sync_interval_secs, 5);
    assert_eq!(c.heartbeat_interval_secs, 60);
    assert!(!c.cache_enabled);
    assert_eq!(c.cache_max_bytes, 100);
    assert_eq!(c.trusted_proxy_cidrs.len(), 1);
    env.proxy_enrollment_token = text("");
    env.cache_enabled = text("0");
    let c = Config::from_env(&env).unwrap_or_else(|_| panic!("sound"));
    assert_eq!(c.enrollment_token, None);
    assert!(!c.cache_enabled);
}

#[test]
fn every_fault_of_an_environment() {
    let mut env = sound();
    env.upstream_hecate_url = None;
    assert_eq!(fault(&env), ConfigError::UpstreamMissing);
    env.upstream_hecate_url = text("///");
    assert_eq!(fault(&env), ConfigError::UpstreamEmpty);
    env.upstream_hecate_url = text("http://hecate.example");
    assert_eq!(fault(&env), ConfigError::Upstream(UpstreamError::Plain));
    env = sound();
    env.api_key_pepper = None;
    assert_eq!(fault(&env), ConfigError::PepperMissing);
    env.api_key_pepper = text("0123456789abcde");
    assert_eq!(fault(&env), ConfigError::PepperShort);
    env.api_key_pepper = text("\u{e9}\u{e9}\u{e9}\u{e9}\u{e9}\u{e9}\u{e9}\u{e9}");
    assert!(Config::from_env(&env).is_ok());
    env.insecure_skip_tls_verify = text("1");
    assert_eq!(fault(&env), ConfigError::InsecureRefused);
    env.insecure_skip_tls_verify = text("0");
    env.trusted_proxy_cidrs = text("x");
    assert_eq!(fault(&env), ConfigError::TrustedProxies(CidrError::Form));
}

#[test]
fn faults_say_what_is_wrong() {
    assert_eq!(ConfigError::UpstreamMissing.message(), "UPSTREAM_HECATE_URL is required");
    assert_eq!(
        ConfigError::Upstream(UpstreamError::Scheme).message(),
        "UPSTREAM_HECATE_URL must be http or https"
    );
    assert_eq!(
        ConfigError::PepperShort.message(),
        "API_KEY_PEPPER must be at least 16 characters"
    );
    assert_eq!(
        ConfigError::TrustedProxies(CidrError::Form).message(),
        "CIDR must be in address/prefix form"
    );
}

#[test]
fn copies_of_the_configuration_are_alike() {
    let mut env = sound();
    env.proxy_enrollment_token = text("token");
    env.proxy_key_path = text("/k");
    let c = Config::from_env(&env).unwrap_or_else(|_| panic!("sound"));
    assert_eq!(c.enrollment_token.as_deref(), Some("token"));
    assert_eq!(format!("{:?}", c.clone()), format!("{c:?}"));
    let paths = ProxyIdentityPaths::from_env(&env);
    assert_eq!(paths.key_path, "/k");
    assert_eq!(paths.clone(), paths);
}
