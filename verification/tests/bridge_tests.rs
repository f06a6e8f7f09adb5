use lele_download::bridge::{
    check_authorized, check_metadata_host, http_response, ipv4_blocked, ipv6_blocked, req_header,
    request_read_done, route_request, url_target, BridgeRoute,
};

fn route_name(r: &BridgeRoute) -> String {
    match r {
        BridgeRoute::Unauthorized => "unauthorized".to_string(),
        BridgeRoute::Preflight => "preflight".to_string(),
        BridgeRoute::Status => "status".to_string(),
        BridgeRoute::Download(u) => format!("download:{}", u),
        BridgeRoute::BadRequest => "bad".to_string(),
        BridgeRoute::Usage => "usage".to_string(),
    }
}

#[test]
fn header_lookup_is_case_insensitive() {
    let req = "GET / HTTP/1.1\r\nHost: x\r\nOrigin:  chrome-extension://abc \r\n\r\n";
    assert_eq!(req_header(req, "origin"), Some("chrome-extension://abc".to_string()));
    assert_eq!(req_header(req, "ORIGIN"), Some("chrome-extension://abc".to_string()));
    assert_eq!(req_header(req, "host"), Some("x".to_string()));
    assert_eq!(req_header(req, "referer"), None);
    assert_eq!(req_header("X-Test: a: b\n", "x-test"), Some("a: b".to_string()));
    // a line that starts with the name and a colon always has a value, if empty
    assert_eq!(req_header("GET / HTTP/1.1\r\nX-Empty:\r\n\r\n", "x-empty"), Some("".to_string()));
    assert_eq!(req_header("GET / HTTP/1.1\r\nX-Emptyish\r\n\r\n", "x-empty"), None);
}

#[test]
fn token_authorization() {
    let req = "POST /download HTTP/1.1\r\nx-auth-token:  secret \r\n\r\n{}";
    assert!(check_authorized(req, None));
    assert!(check_authorized(req, Some("secret")));
    assert!(!check_authorized(req, Some("other")));
    assert!(!check_authorized("GET /status HTTP/1.1\r\n\r\n", Some("secret")));
    let req = "POST /download HTTP/1.1\r\nX-Auth-Token: secret\r\n\r\n";
    assert!(check_authorized(req, Some("secret")));
}

#[test]
fn routing() {
    let body = "{\"url\":\"http://example.com/a.gz\",\"timestamp\":1}";
    let post = format!("POST /download HTTP/1.1\r\nContent-Length: {}\r\n\r\n{}", body.len(), body);
    assert_eq!(route_name(&route_request(&post, None)), "download:http://example.com/a.gz");
    assert_eq!(route_name(&route_request(&post, Some("t"))), "unauthorized");
    assert_eq!(route_name(&route_request("OPTIONS /download HTTP/1.1\r\n\r\n", None)), "preflight");
    assert_eq!(route_name(&route_request("options /x HTTP/1.1\r\n\r\n", None)), "preflight");
    assert_eq!(route_name(&route_request("GET /status HTTP/1.1\r\nHost: x\r\n\r\n", None)), "status");
    assert_eq!(route_name(&route_request("POST /download HTTP/1.1\r\n\r\nnot json", None)), "bad");
    assert_eq!(route_name(&route_request("POST /download HTTP/1.1\r\n\r\n{\"u\":1}", None)), "bad");
    assert_eq!(route_name(&route_request("POST /download HTTP/1.1", None)), "bad");
    assert_eq!(route_name(&route_request("GET / HTTP/1.1\r\n\r\n", None)), "usage");
    assert_eq!(route_name(&route_request("", None)), "usage");
}

#[test]
fn routing_goes_by_the_request_path() {
    let body = "{\"url\":\"http://example.com/status.zip\"}";
    let post = format!("POST /download HTTP/1.1\r\nContent-Length: {}\r\n\r\n{}", body.len(), body);
    assert_eq!(route_name(&route_request(&post, None)), "download:http://example.com/status.zip");
    assert_eq!(route_name(&route_request("GET /status?t=1 HTTP/1.1\r\n\r\n", None)), "status");
    assert_eq!(route_name(&route_request("GET / HTTP/1.1\r\nReferer: http://x/status\r\n\r\n", None)), "usage");
    assert_eq!(route_name(&route_request("GET /statusx HTTP/1.1\r\n\r\n", None)), "usage");
    assert_eq!(route_name(&route_request("GET /status", None)), "status");
}

#[test]
fn responses_carry_cors_only_for_extensions() {
    let r = http_response("200 OK", "{\"s\":\"ok\"}", Some("chrome-extension://abc"));
    assert_eq!(
        r,
        "HTTP/1.1 200 OK\r\nContent-Type: application/json; charset=utf-8\r\nContent-Length: 10\r\nConnection: close\r\nAccess-Control-Allow-Origin: chrome-extension://abc\r\nAccess-Control-Allow-Methods: GET, POST, OPTIONS\r\nAccess-Control-Allow-Headers: *\r\n\r\n{\"s\":\"ok\"}"
    );
    let r = http_response("204 No Content", "", Some("https://evil.example"));
    assert_eq!(
        r,
        "HTTP/1.1 204 No Content\r\nContent-Type: application/json; charset=utf-8\r\nContent-Length: 0\r\nConnection: close\r\n\r\n"
    );
    let r = http_response("400 Bad Request", "{\"msg\":\"中\"}", Some("moz-extension://x"));
    assert!(r.contains("Content-Length: 13\r\n"));
    assert!(r.contains("Access-Control-Allow-Origin: moz-extension://x\r\n"));
}

#[test]
fn read_completion() {
    assert!(!request_read_done(b"GET /status HTTP/1.1\r\nHost: x\r\n"));
    assert!(request_read_done(b"GET /status HTTP/1.1\r\nHost: x\r\n\r\n"));
    let head = b"POST /download HTTP/1.1\r\nContent-Length: 5\r\n\r\n".to_vec();
    assert!(!request_read_done(&head));
    let mut part = head.clone();
    part.extend_from_slice(b"abcd");
    assert!(!request_read_done(&part));
    part.extend_from_slice(b"e");
    assert!(request_read_done(&part));
    // the declared length is taken from the first line that parses
    let odd = b"POST / HTTP/1.1\r\ncontent-length: x\r\nCONTENT-LENGTH: +2\r\n\r\nab".to_vec();
    assert!(request_read_done(&odd));
    let big = vec![b'a'; 1_000_001];
    assert!(request_read_done(&big));
    assert!(!request_read_done(&big[..1_000_000]));
}

#[test]
fn url_targets() {
    assert_eq!(url_target("https://example.com/a.zip"), Ok("example.com".to_string()));
    assert_eq!(url_target("http://10.0.0.5/x"), Ok("10.0.0.5".to_string()));
    assert_eq!(url_target("http://[::1]:8080/x"), Ok("::1".to_string()));
    assert_eq!(url_target("http://[fd00::2]/"), Ok("fd00::2".to_string()));
    assert_eq!(url_target("ftp://example.com/a"), Err("scheme 'ftp' not allowed".to_string()));
    assert_eq!(url_target("file:///etc/passwd"), Err("scheme 'file' not allowed".to_string()));
    assert!(url_target("::nonsense").unwrap_err().starts_with("invalid url: "));
    assert_eq!(check_metadata_host("metadata.google.internal"), Err("metadata host blocked".to_string()));
    assert_eq!(check_metadata_host("example.com"), Ok(()));
}

#[test]
fn internal_addresses_are_blocked() {
    for ip in [[127u8, 0, 0, 1], [0, 0, 0, 0], [10, 1, 2, 3], [172, 16, 0, 1], [172, 31, 255, 255], [192, 168, 1, 1], [169, 254, 169, 254]] {
        assert!(ipv4_blocked(ip), "{:?}", ip);
    }
    for ip in [[8u8, 8, 8, 8], [172, 32, 0, 1], [172, 15, 0, 1], [192, 169, 0, 1], [1, 1, 1, 1], [0, 0, 0, 1]] {
        assert!(!ipv4_blocked(ip), "{:?}", ip);
    }
    assert!(ipv6_blocked([0, 0, 0, 0, 0, 0, 0, 1]));
    assert!(ipv6_blocked([0, 0, 0, 0, 0, 0, 0, 0]));
    assert!(ipv6_blocked([0xfc00, 0, 0, 0, 0, 0, 0, 1]));
    assert!(ipv6_blocked([0xfdff, 0, 0, 0, 0, 0, 0, 2]));
    assert!(!ipv6_blocked([0x2001, 0xdb8, 0, 0, 0, 0, 0, 1]));
    assert!(!ipv6_blocked([0xfe80, 0, 0, 0, 0, 0, 0, 1]));
    assert!(!ipv6_blocked([0, 0, 0, 0, 0, 0, 0, 2]));
}

#[test]
fn ipv4_classification_by_prefix() {
    for a in 0u8..=255 {
        for b in 0u8..=255 {
            let expected = a == 127 || a == 10 || (a == 172 && (16..=31).contains(&b))
                || (a == 192 && b == 168) || (a == 169 && b == 254);
            assert_eq!(ipv4_blocked([a, b, 7, 7]), expected, "{}.{}", a, b);
        }
    }
}
