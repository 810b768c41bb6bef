use propylaea::clock::parse_utc;
use propylaea::clock::UtcTime;
use propylaea::ip::parse_ip;
use propylaea::ip::IpAddr;
use propylaea::state::proxy_id_text;
use propylaea::text::decimal_text;
use propylaea::text::parse_i64;
use propylaea::text::parse_unsigned;
use propylaea::text::signed_decimal_text;
use propylaea::text::to_lower;
use propylaea::text::trim_both_of;
use propylaea::text::trim_text;

#[test]
fn ipv4_notation() {
    assert_eq!(parse_ip("1.2.3.4"), Some(IpAddr::V4(0x01020304)));
    assert_eq!(parse_ip("255.255.255.255"), Some(IpAddr::V4(u32::MAX)));
    for bad in ["", "1.2.3", "1.2.3.4.5", "1.2.3.256", "01.2.3.4", "1.2.3.-4", "1.2.3.4 ", "a.b.c.d"] {
        assert_eq!(parse_ip(bad), None);
    }
    assert_eq!(IpAddr::V4(0x7f000001).to_text(), "127.0.0.1");
}

#[test]
fn ipv6_notation() {
    let samples = [
        ("::", "::"),
        ("::1", "::1"),
        ("1::", "1::"),
        ("fe80::1:2", "fe80::1:2"),
        ("2001:db8:0:0:1:0:0:1", "2001:db8::1:0:0:1"),
        ("1:2:3:4:5:6:7:8", "1:2:3:4:5:6:7:8"),
        ("::ffff:1.2.3.4", "::ffff:1.2.3.4"),
        ("::1.2.3.4", "::102:304"),
        ("64:ff9b::1.2.3.4", "64:ff9b::102:304"),
        ("0:0:1::", "0:0:1::"),
        ("a:b:c:d:e:f:1.2.3.4", "a:b:c:d:e:f:102:304"),
        ("1:0:0:2:0:0:0:3", "1:0:0:2::3"),
        ("ABCD::EF01", "abcd::ef01"),
        ("1:2:3:4:5:6:7::", "1:2:3:4:5:6:7:0"),
        ("::2:3:4:5:6:7:8", "0:2:3:4:5:6:7:8"),
    ];
    for (s, shown) in samples {
        assert_eq!(parse_ip(s).unwrap().to_text(), shown, "{s}");
        assert_eq!(parse_ip(shown), parse_ip(s), "{s}");
    }
    assert_eq!(parse_ip("::ffff:1.2.3.4"), Some(IpAddr::V6(0xffff_0102_0304)));
    assert_eq!(
        parse_ip("1:2:3:4:5:6:7:8"),
        Some(IpAddr::V6(0x0001_0002_0003_0004_0005_0006_0007_0008))
    );
    let bad = [
        ":", ":::", "1:2:3:4:5:6:7", "1:2:3:4:5:6:7:8:9", "12345::", "g::", "1::2::3", "::1.2.3", "1.2.3.4::",
        "::1%eth0", "[::1]", "1:2:3:4:5:6:7:8::", "::1:2:3:4:5:6:7:8", "1:2:3:4:5:6:1.2.3.4:7", ":1::",
    ];
    for s in bad {
        assert_eq!(parse_ip(s), None, "{s}");
    }
}

#[test]
fn unsigned_numbers() {
    assert_eq!(parse_unsigned("0", 255), Some(0));
    assert_eq!(parse_unsigned("+255", 255), Some(255));
    assert_eq!(parse_unsigned("256", 255), None);
    assert_eq!(parse_unsigned("0007", 255), Some(7));
    for bad in ["", "+", "-1", " 1", "1 ", "1_0", "0x1"] {
        assert_eq!(parse_unsigned(bad, 255), None);
    }
    assert_eq!(parse_unsigned("18446744073709551615", u64::MAX), Some(u64::MAX));
    assert_eq!(parse_unsigned("18446744073709551616", u64::MAX), None);
}

#[test]
fn signed_numbers() {
    for n in [0, 1, -1, 42, -42, i64::MAX, i64::MIN] {
        assert_eq!(signed_decimal_text(n), n.to_string());
        assert_eq!(parse_i64(&n.to_string()), Some(n));
    }
    assert_eq!(parse_i64("+5"), Some(5));
    for bad in ["", "-", "--1", "9223372036854775808", "-9223372036854775809", "1.0"] {
        assert_eq!(parse_i64(bad), None);
    }
    assert_eq!(decimal_text(u64::MAX), u64::MAX.to_string());
}

#[test]
fn trimming_and_case() {
    assert_eq!(trim_text(" \u{a0}a b\u{2003}\n"), "a b");
    assert_eq!(trim_text("\u{feff}"), "\u{feff}");
    assert_eq!(trim_both_of("\"\"a\"b\"", '"'), "a\"b");
    assert_eq!(to_lower("AbC\u{c9}"), "abc\u{c9}");
}

#[test]
fn identities_are_hyphenated() {
    assert_eq!(
        proxy_id_text(0x550e8400_e29b_41d4_a716_446655440000),
        "550e8400-e29b-41d4-a716-446655440000"
    );
    assert_eq!(proxy_id_text(0), "00000000-0000-0000-0000-000000000000");
}

#[test]
fn moments() {
    assert_eq!(
        parse_utc("2099-01-01T00:00:00Z"),
        Some(UtcTime { secs: 4070908800, nanos: 0 })
    );
    assert_eq!(
        parse_utc("1970-01-01T01:00:00.5+01:00"),
        Some(UtcTime { secs: 0, nanos: 500_000_000 })
    );
    assert_eq!(parse_utc("yesterday"), None);
    let a = UtcTime { secs: 1, nanos: 2 };
    let b = UtcTime { secs: 1, nanos: 3 };
    let c = UtcTime { secs: 2, nanos: 0 };
    assert!(b.is_after(&a) && c.is_after(&b) && !a.is_after(&a) && !a.is_after(&c));
    assert_eq!(UtcTime { secs: 3, nanos: 7_900_000 }.timestamp_millis(), 3007);
    assert_eq!(UtcTime { secs: -1, nanos: 999_000_000 }.timestamp_millis(), -1);
}
