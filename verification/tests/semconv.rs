use revo::telemetry::semconv::{
    error_type, known_methods, parse_known_methods, protocol_version, request_method,
    server_address_port, split_host_port, unquote, url_scheme, HttpVersion, RequestHeaders,
    HTTP_REQUEST_METHOD_OTHER,
};

fn headers(
    forwarded: Option<&str>,
    x_forwarded_proto: Option<&str>,
    x_forwarded_host: Option<&str>,
    host: Option<&str>,
) -> RequestHeaders {
    RequestHeaders {
        forwarded: forwarded.map(|v| v.as_bytes().to_vec()),
        x_forwarded_proto: x_forwarded_proto.map(|v| v.as_bytes().to_vec()),
        x_forwarded_host: x_forwarded_host.map(|v| v.as_bytes().to_vec()),
        host: host.map(|v| v.as_bytes().to_vec()),
    }
}

fn strings(v: &[&str]) -> Vec<String> {
    v.iter().map(|s| s.to_string()).collect()
}

#[test]
fn request_method_reports_known_methods_verbatim() {
    let known = known_methods(None);
    assert_eq!(request_method(&known, "GET"), "GET");
    assert_eq!(request_method(&known, "QUERY"), "QUERY");
    assert_eq!(request_method(&known, "TRACE"), "TRACE");
}

#[test]
fn request_method_reports_unknown_methods_as_other() {
    let known = known_methods(None);
    assert_eq!(request_method(&known, "get"), "_OTHER");
    assert_eq!(request_method(&known, "PROPFIND"), HTTP_REQUEST_METHOD_OTHER);
    assert_eq!(request_method(&known, ""), "_OTHER");
}

#[test]
fn known_methods_default_list() {
    assert_eq!(
        known_methods(None),
        strings(&["CONNECT", "DELETE", "GET", "HEAD", "OPTIONS", "PATCH", "POST", "PUT", "QUERY", "TRACE"])
    );
    assert_eq!(known_methods(Some("   ")), known_methods(None));
    assert_eq!(known_methods(Some("")), known_methods(None));
}

#[test]
fn known_methods_configured_list_replaces_defaults() {
    let known = known_methods(Some("GET, PROPFIND"));
    assert_eq!(known, strings(&["GET", "PROPFIND"]));
    assert_eq!(request_method(&known, "PROPFIND"), "PROPFIND");
    assert_eq!(request_method(&known, "POST"), "_OTHER");
}

#[test]
fn known_methods_list_of_separators_matches_nothing() {
    let known = known_methods(Some(",,"));
    assert!(known.is_empty());
    assert_eq!(request_method(&known, "GET"), "_OTHER");
}

#[test]
fn parse_known_methods_trims_and_drops_empty_entries() {
    assert_eq!(parse_known_methods(" GET ,,\tPOST , , x y "), strings(&["GET", "POST", "x y"]));
    assert_eq!(parse_known_methods("get"), strings(&["get"]));
    assert!(parse_known_methods("").is_empty());
    assert_eq!(parse_known_methods("\u{3000}PUT\u{a0}"), strings(&["PUT"]));
}

#[test]
fn url_scheme_defaults_to_http() {
    assert_eq!(url_scheme(&headers(None, None, None, None)), "http");
    assert_eq!(url_scheme(&headers(None, None, None, Some("example.com"))), "http");
}

#[test]
fn url_scheme_from_forwarded() {
    let h = headers(Some("for=192.0.2.60;proto=https;by=203.0.113.43"), None, None, None);
    assert_eq!(url_scheme(&h), "https");
    let h = headers(Some("for=a, Proto = \"HTTPS\""), None, None, None);
    assert_eq!(url_scheme(&h), "https");
}

#[test]
fn url_scheme_first_forwarded_element_wins() {
    let h = headers(Some("proto=https, proto=http"), Some("http"), None, None);
    assert_eq!(url_scheme(&h), "https");
}

#[test]
fn url_scheme_forwarded_takes_precedence() {
    let h = headers(Some("proto=http"), Some("https"), None, None);
    assert_eq!(url_scheme(&h), "http");
}

#[test]
fn url_scheme_from_x_forwarded_proto() {
    let h = headers(None, Some("https, http"), None, None);
    assert_eq!(url_scheme(&h), "https");
    let h = headers(Some("for=192.0.2.60"), Some(" WSS "), None, None);
    assert_eq!(url_scheme(&h), "wss");
}

#[test]
fn url_scheme_empty_forwarded_proto_falls_back_to_http() {
    let h = headers(Some("proto=\"\""), Some("https"), None, None);
    assert_eq!(url_scheme(&h), "http");
}

#[test]
fn url_scheme_ignores_unreadable_header() {
    let mut h = headers(None, None, None, None);
    h.forwarded = Some(vec![b'p', b'r', b'o', b't', b'o', b'=', 0xc3, 0xa9]);
    h.x_forwarded_proto = Some(b"https".to_vec());
    assert_eq!(url_scheme(&h), "https");
}

#[test]
fn server_address_port_from_host() {
    let h = headers(None, None, None, Some("example.com:8080"));
    assert_eq!(server_address_port(&h, "http"), Some(("example.com".to_string(), 8080)));
}

#[test]
fn server_address_port_default_ports() {
    let h = headers(None, None, None, Some("example.com"));
    assert_eq!(server_address_port(&h, "http"), Some(("example.com".to_string(), 80)));
    assert_eq!(server_address_port(&h, "https"), Some(("example.com".to_string(), 443)));
    assert_eq!(server_address_port(&h, "HTTPS"), Some(("example.com".to_string(), 80)));
}

#[test]
fn server_address_port_precedence() {
    let h = headers(Some("host=\"proxy.example:444\""), Some("https"), Some("xfh.example"), Some("host.example"));
    assert_eq!(server_address_port(&h, "https"), Some(("proxy.example".to_string(), 444)));
    let h = headers(Some("proto=https"), None, Some("xfh.example, other"), Some("host.example"));
    assert_eq!(server_address_port(&h, "https"), Some(("xfh.example".to_string(), 443)));
}

#[test]
fn server_address_port_ipv6() {
    let h = headers(None, None, None, Some("[::1]:3000"));
    assert_eq!(server_address_port(&h, "http"), Some(("::1".to_string(), 3000)));
    let h = headers(None, None, None, Some("[2001:db8::1]"));
    assert_eq!(server_address_port(&h, "https"), Some(("2001:db8::1".to_string(), 443)));
}

#[test]
fn server_address_port_invalid_port_uses_default() {
    let h = headers(None, None, None, Some("example.com:http"));
    assert_eq!(server_address_port(&h, "http"), Some(("example.com".to_string(), 80)));
    let h = headers(None, None, None, Some("example.com:70000"));
    assert_eq!(server_address_port(&h, "https"), Some(("example.com".to_string(), 443)));
}

#[test]
fn server_address_port_rejects_bogus_addresses() {
    assert_eq!(server_address_port(&headers(None, None, None, None), "http"), None);
    assert_eq!(server_address_port(&headers(None, None, None, Some("")), "http"), None);
    assert_eq!(server_address_port(&headers(None, None, None, Some("a b")), "http"), None);
    assert_eq!(server_address_port(&headers(None, None, None, Some("a\tb:80")), "http"), None);
    assert_eq!(server_address_port(&headers(None, None, None, Some("[]:80")), "http"), None);
    let long = "a".repeat(254);
    assert_eq!(server_address_port(&headers(None, None, None, Some(&long)), "http"), None);
    let limit = "a".repeat(253);
    assert_eq!(
        server_address_port(&headers(None, None, None, Some(&limit)), "http"),
        Some((limit.clone(), 80))
    );
}

#[test]
fn split_host_port_cases() {
    assert_eq!(split_host_port("example.com:80"), Some(("example.com".to_string(), Some(80))));
    assert_eq!(split_host_port("example.com"), Some(("example.com".to_string(), None)));
    assert_eq!(split_host_port("example.com:"), Some(("example.com".to_string(), None)));
    assert_eq!(split_host_port("a:b:+8080"), Some(("a:b".to_string(), Some(8080))));
    assert_eq!(split_host_port(":80"), Some((":80".to_string(), None)));
    assert_eq!(split_host_port(""), None);
    assert_eq!(split_host_port("[::1]"), Some(("::1".to_string(), None)));
    assert_eq!(split_host_port("[::1]:443"), Some(("::1".to_string(), Some(443))));
    assert_eq!(split_host_port("[::1]443"), Some(("::1".to_string(), None)));
    assert_eq!(split_host_port("[::1"), None);
    assert_eq!(split_host_port("[]:80"), None);
    assert_eq!(split_host_port("host:-1"), Some(("host".to_string(), None)));
    assert_eq!(split_host_port("host:+"), Some(("host".to_string(), None)));
    assert_eq!(split_host_port("host:65535"), Some(("host".to_string(), Some(65535))));
    assert_eq!(split_host_port("host:65536"), Some(("host".to_string(), None)));
    assert_eq!(split_host_port("host:007"), Some(("host".to_string(), Some(7))));
}

#[test]
fn split_host_port_roundtrip_values() {
    for port in [0u16, 1, 80, 443, 8080, 65535] {
        let joined = format!("example.com:{port}");
        assert_eq!(split_host_port(&joined), Some(("example.com".to_string(), Some(port))));
        let bracketed = format!("[fe80::1]:{port}");
        assert_eq!(split_host_port(&bracketed), Some(("fe80::1".to_string(), Some(port))));
    }
}

#[test]
fn unquote_cases() {
    assert_eq!(unquote("  \"https\"  "), "https");
    assert_eq!(unquote("https"), "https");
    assert_eq!(unquote("\""), "\"");
    assert_eq!(unquote("\"\""), "");
    assert_eq!(unquote("\"a"), "\"a");
    assert_eq!(unquote("\" a \""), " a ");
    assert_eq!(unquote("\"\"x\"\""), "\"x\"");
}

#[test]
fn protocol_version_values() {
    assert_eq!(protocol_version(HttpVersion::Http09), None);
    assert_eq!(protocol_version(HttpVersion::Http10), Some("1.0"));
    assert_eq!(protocol_version(HttpVersion::Http11), Some("1.1"));
    assert_eq!(protocol_version(HttpVersion::Http2), Some("2"));
    assert_eq!(protocol_version(HttpVersion::Http3), Some("3"));
}

#[test]
fn error_type_only_for_server_errors() {
    assert_eq!(error_type(200), None);
    assert_eq!(error_type(404), None);
    assert_eq!(error_type(499), None);
    assert_eq!(error_type(500), Some("500".to_string()));
    assert_eq!(error_type(503), Some("503".to_string()));
    assert_eq!(error_type(599), Some("599".to_string()));
    assert_eq!(error_type(600), None);
}

#[test]
fn error_type_reads_back_as_status() {
    for status in 500u16..600 {
        let e = error_type(status).unwrap();
        assert_eq!(e.parse::<u16>().unwrap(), status);
    }
}

#[test]
fn parse_known_methods_join_roundtrip() {
    let xs = strings(&["GET", "get", "PROPFIND", "GET", "x y"]);
    assert_eq!(parse_known_methods(&xs.join(",")), xs);
    assert_eq!(parse_known_methods(&xs.join(" , ")), xs);
    assert_eq!(parse_known_methods(&xs.join("\t,\u{a0}")), xs);
}
