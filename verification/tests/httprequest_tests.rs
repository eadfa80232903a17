use httpserver::httprequest::{HttpRequest, Method, Version};

#[test]
fn test_method_into_for_method() {
    let cases = vec![
        ("GET", Method::Get),
        ("POST", Method::Post),
        ("Unkown", Method::Uninitialized),
    ];

    for (input, expected) in cases {
        let m: Method = input.into();
        assert_eq!(m, expected, "Failed on input: {}", input);
    }
}

#[test]
fn test_method_into_for_version() {
    let v: Version = "HTTP/1.1".into();
    assert_eq!(v, Version::V1_1, "Can't convert HTTP/1.1 to Version")
}

#[test]
fn test_parse_http_request_empty_body() {
    let mut raw_request = Vec::new();
    raw_request.extend_from_slice(b"POST /submit-form HTTP/1.1\r\n");
    raw_request.extend_from_slice(b"Host: www.example.com\r\n");
    raw_request.extend_from_slice(b"Content-Type: application/x-www-form-urlencoded\r\n");
    raw_request.extend_from_slice(b"Content-Length: 27\r\n\r\n");

    let result = HttpRequest::parse(raw_request).unwrap();

    assert_eq!(result.method, "POST".into());
    assert_eq!(result.resource, "/submit-form");
    assert_eq!(result.version, "HTTP/1.1".into());
    assert_eq!(result.header.len(), 3);
    assert_eq!(result.header.get("Host").unwrap(), "www.example.com");
    assert_eq!(
        result.header.get("Content-Type").unwrap(),
        "application/x-www-form-urlencoded"
    );
    assert_eq!(result.header.get("Content-Length").unwrap(), "27");
    assert_eq!(result.body, Vec::new());
}

#[test]
fn test_parse_http_request_with_body() {
    let mut raw_request = Vec::new();
    raw_request.extend_from_slice(b"POST /submit-form HTTP/1.1\r\n");
    raw_request.extend_from_slice(b"Host: www.example.com\r\n");
    raw_request.extend_from_slice(b"Content-Type: application/x-www-form-urlencoded\r\n");
    raw_request.extend_from_slice(b"Content-Length: 27\r\n\r\n");
    raw_request.extend_from_slice(b"field1=value1&field2=value2");

    let result = HttpRequest::parse(raw_request).unwrap();
    let mut body = Vec::new();
    body.extend_from_slice(b"field1=value1&field2=value2");

    assert_eq!(result.method, "POST".into());
    assert_eq!(result.resource, "/submit-form");
    assert_eq!(result.version, "HTTP/1.1".into());
    assert_eq!(result.header.len(), 3);
    assert_eq!(result.header.get("Host").unwrap(), "www.example.com");
    assert_eq!(
        result.header.get("Content-Type").unwrap(),
        "application/x-www-form-urlencoded"
    );
    assert_eq!(result.header.get("Content-Length").unwrap(), "27");
    assert_eq!(result.body, body);
}

#[test]
fn test_parse_without_boundary_is_malformed() {
    assert!(HttpRequest::parse(b"GET / HTTP/1.1\r\nHost: x\r\n".to_vec()).is_none());
    assert!(HttpRequest::parse(Vec::new()).is_none());
    assert!(HttpRequest::parse(b"\r\n\r".to_vec()).is_none());
    assert!(HttpRequest::parse(vec![0xff, 0xfe, 0x00, 0x01]).is_none());
}

#[test]
fn test_parse_rejects_invalid_utf8_header() {
    let mut raw = Vec::new();
    raw.extend_from_slice(b"GET /a HTTP/1.1\r\nHost: ");
    raw.push(0xff);
    raw.extend_from_slice(b"\r\n\r\n");
    assert!(HttpRequest::parse(raw).is_none());
}

#[test]
fn test_parse_rejects_short_request_line() {
    assert!(HttpRequest::parse(b"GET /only-two\r\n\r\n".to_vec()).is_none());
    assert!(HttpRequest::parse(b"\r\n\r\n".to_vec()).is_none());
}

#[test]
fn test_parse_preserves_binary_body() {
    let mut raw = Vec::new();
    raw.extend_from_slice(b"POST /up HTTP/1.1\r\nHost: x\r\n\r\n");
    let body: Vec<u8> = vec![0x00, 0xff, 0x13, 0x10, 0x0d, 0x0a, 0x0d, 0x0a, 0x7f];
    raw.extend_from_slice(&body);
    let req = HttpRequest::parse(raw).unwrap();
    assert_eq!(req.body, body);
}

#[test]
fn test_parse_duplicate_header_last_wins() {
    let raw = b"GET / HTTP/1.1\r\nX-One: first\r\nX-One: second\r\n\r\n".to_vec();
    let req = HttpRequest::parse(raw).unwrap();
    assert_eq!(req.header.len(), 1);
    assert_eq!(req.header.get("X-One").unwrap(), "second");
}

#[test]
fn test_parse_header_scan_stops_at_separatorless_line() {
    let raw = b"GET / HTTP/1.1\r\nGood: yes\r\nno-separator-here\r\nLate: ignored\r\n\r\n".to_vec();
    let req = HttpRequest::parse(raw).unwrap();
    assert_eq!(req.header.len(), 1);
    assert_eq!(req.header.get("Good").unwrap(), "yes");
    assert!(req.header.get("Late").is_none());
}

#[test]
fn test_parse_unrecognized_method_and_version_are_not_fatal() {
    let req = HttpRequest::parse(b"BREW /pot HTCPCP/1.0\r\n\r\n".to_vec()).unwrap();
    assert_eq!(req.method, Method::Uninitialized);
    assert_eq!(req.version, Version::Uninitialized);
    assert_eq!(req.resource, "/pot");
}

#[test]
fn test_parse_header_name_with_colon_and_value_with_lone_cr() {
    // the name may hold a colon not followed by a space, and a value a lone
    // CR; only the first ": " splits, and only "\r\n" ends a line
    let raw = b"GET / HTTP/1.1\r\nX:Odd: value\r\nA: b\rc\r\n\r\n".to_vec();
    let req = HttpRequest::parse(raw).unwrap();
    assert_eq!(req.header.len(), 2);
    assert_eq!(req.header.get("X:Odd").unwrap(), "value");
    assert_eq!(req.header.get("A").unwrap(), "b\rc");
}

#[test]
fn test_parse_splits_on_unicode_whitespace() {
    // U+00A0 (no-break space) separates the request-line tokens
    let mut raw = Vec::new();
    raw.extend_from_slice(b"GET\xc2\xa0/x\xc2\xa0HTTP/1.1\r\nHost: a\r\n\r\n");
    let req = HttpRequest::parse(raw).unwrap();
    assert_eq!(req.method, Method::Get);
    assert_eq!(req.resource, "/x");
    assert_eq!(req.version, Version::V1_1);

    // U+3000 (ideographic space) likewise
    let mut raw = Vec::new();
    raw.extend_from_slice(b"POST\xe3\x80\x80/y\xe3\x80\x80HTTP/1.1\r\n\r\n");
    let req = HttpRequest::parse(raw).unwrap();
    assert_eq!(req.method, Method::Post);
    assert_eq!(req.resource, "/y");
}

#[test]
fn test_method_as_str() {
    assert_eq!(Method::Get.as_str(), "GET");
    assert_eq!(Method::Post.as_str(), "POST");
    assert_eq!(Method::Uninitialized.as_str(), "Unknown");
}
