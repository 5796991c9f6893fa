use game_info_server::utils::{
    extract_ip, extract_ip_from_req, is_valid_ip_str, log_level, ClientHeaders, LogLevel,
};

fn headers(fwd: Option<&str>, real: Option<&str>) -> ClientHeaders {
    ClientHeaders {
        forwarded_for: fwd.map(|s| s.to_string()),
        real_ip: real.map(|s| s.to_string()),
    }
}

#[test]
fn address_shapes() {
    assert!(is_valid_ip_str("1.2.3.4"));
    assert!(is_valid_ip_str("0.0.0.0"));
    assert!(is_valid_ip_str("+1.2.3.4"));
    assert!(!is_valid_ip_str("256.1.1.1"));
    assert!(!is_valid_ip_str("1.2.3"));
    assert!(!is_valid_ip_str("1.2.3.4.5"));
    assert!(!is_valid_ip_str("a.b.c.d"));
    assert!(is_valid_ip_str("::1"));
    assert!(is_valid_ip_str("2001:db8::1"));
    assert!(!is_valid_ip_str("localhost"));
    assert!(!is_valid_ip_str(""));
}

#[test]
fn ipv6_address_text() {
    for ok in [
        "::", "::1", "fe80::", "2001:db8::1", "1:2:3:4:5:6:7:8", "1:2:3:4:5:6:7::",
        "::2:3:4:5:6:7:8", "ABCD:ef01::9", "0:0:0:0:0:0:0:1",
    ] {
        assert!(is_valid_ip_str(ok), "{}", ok);
    }
    for bad in [
        "../../etc:x", "a:b", ":", ":::", "1::2::3", "12345::1", ":1", "1:", "1:2",
        "g::1", "1:2:3:4:5:6:7:8:9", "1:2:3:4:5:6:7::8", "::1 ", "1:2:3:4:5:6:7:8:",
    ] {
        assert!(!is_valid_ip_str(bad), "{}", bad);
    }
}

#[test]
fn non_address_header_is_not_used() {
    let h = headers(Some("../../etc:x"), None);
    assert_eq!(extract_ip(&h, "1.2.3.4:5"), "1.2.3.4");
    let h = headers(Some("../../etc:x"), Some("a:b"));
    assert_eq!(extract_ip(&h, "1.2.3.4:5"), "1.2.3.4");
    let h = headers(Some("../../etc:x"), Some("fe80::1"));
    assert_eq!(extract_ip(&h, "1.2.3.4:5"), "fe80::1");
}

#[test]
fn forwarded_address_first() {
    let h = headers(Some(" 8.8.8.8 , 10.0.0.1"), Some("9.9.9.9"));
    assert_eq!(extract_ip(&h, "127.0.0.1:5000"), "8.8.8.8");
}

#[test]
fn invalid_forwarded_falls_back_to_real_ip() {
    let h = headers(Some("garbage, 8.8.8.8"), Some(" 9.9.9.9 "));
    assert_eq!(extract_ip(&h, "127.0.0.1:5000"), "9.9.9.9");
    let h = headers(Some(""), Some("9.9.9.9"));
    assert_eq!(extract_ip(&h, "127.0.0.1:5000"), "9.9.9.9");
}

#[test]
fn peer_address_without_port() {
    let h = headers(None, Some("nonsense"));
    assert_eq!(extract_ip(&h, "1.2.3.4:56789"), "1.2.3.4");
    let h = headers(None, None);
    assert_eq!(extract_ip(&h, "localhost"), "localhost");
    assert_eq!(extract_ip(&h, "[::1]:8080"), "::1");
    assert_eq!(extract_ip(&h, "[2001:db8::1]:443"), "2001:db8::1");
    assert_eq!(extract_ip(&h, "[[x]]:1"), "x");
    assert_eq!(extract_ip(&h, "host:"), "host");
    assert_eq!(extract_ip(&h, ":80"), "");
}

#[test]
fn logged_address() {
    assert_eq!(extract_ip_from_req(&headers(Some("a, b"), Some("c"))), "a");
    assert_eq!(extract_ip_from_req(&headers(Some(" ,b"), Some(" c "))), "c");
    assert_eq!(extract_ip_from_req(&headers(Some(""), None)), "-");
    assert_eq!(extract_ip_from_req(&headers(None, None)), "-");
    assert_eq!(extract_ip_from_req(&headers(None, Some(""))), "");
}

#[test]
fn log_levels() {
    assert_eq!(log_level(200), LogLevel::Info);
    assert_eq!(log_level(399), LogLevel::Info);
    assert_eq!(log_level(404), LogLevel::Warn);
    assert_eq!(log_level(499), LogLevel::Warn);
    assert_eq!(log_level(500), LogLevel::Error);
    assert_eq!(log_level(503), LogLevel::Error);
}
