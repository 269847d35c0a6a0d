use vortex::network::http_connection::{
    extract_body, extract_request_path, find_header_end, parse_invocation_path, validate_base64,
    HttpConnection, RequestKind,
};

// -- parse_invocation_path ------------------------------------------------

#[test]
fn parse_valid_invocation_path() {
    let (v, s, r) = parse_invocation_path("v1/users/list").unwrap();
    assert_eq!(v, "v1");
    assert_eq!(s, "users");
    assert_eq!(r, "list");
}

#[test]
fn parse_invocation_path_with_nested_route() {
    let (v, s, r) = parse_invocation_path("v2/orders/get/123").unwrap();
    assert_eq!(v, "v2");
    assert_eq!(s, "orders");
    assert_eq!(r, "get/123");
}

#[test]
fn parse_invocation_path_missing_segment() {
    assert!(parse_invocation_path("v1/users").is_err());
}

#[test]
fn parse_invocation_path_empty_segment() {
    assert!(parse_invocation_path("v1//method").is_err());
}

#[test]
fn parse_invocation_path_single_segment() {
    assert!(parse_invocation_path("v1").is_err());
}

#[test]
fn parse_invocation_path_error_text() {
    assert_eq!(
        parse_invocation_path("v1/users"),
        Err("invalid path '/v1/users': expected format /version/service/route".to_string()),
    );
    assert!(parse_invocation_path("").is_err());
    assert!(parse_invocation_path("v1/users/").is_err());
    assert_eq!(parse_invocation_path("v1/über/é"), Ok(("v1", "über", "é")));
}

// -- validate_base64 ------------------------------------------------------

#[test]
fn base64_valid_no_padding() {
    validate_base64(b"SGVsbG8gV29ybGQ").unwrap();
}

#[test]
fn base64_valid_with_padding() {
    validate_base64(b"SGVsbG8=").unwrap();
}

#[test]
fn base64_valid_double_padding() {
    validate_base64(b"SG8=").unwrap();
}

#[test]
fn base64_invalid_character() {
    assert!(validate_base64(b"SGVs!G8=").is_err());
}

#[test]
fn base64_data_after_padding() {
    assert!(validate_base64(b"SG8=abc").is_err());
}

#[test]
fn base64_empty_body() {
    assert!(validate_base64(b"").is_err());
}

#[test]
fn base64_error_texts() {
    assert_eq!(validate_base64(b""), Err("POST body must not be empty".to_string()));
    assert_eq!(validate_base64(b"SG!"), Err("invalid base64 byte: 0x21".to_string()));
    assert_eq!(validate_base64(b"\xfe"), Err("invalid base64 byte: 0xfe".to_string()));
    assert_eq!(
        validate_base64(b"SG8=a"),
        Err("invalid base64: data after padding".to_string()),
    );
    // Once the padding has begun, what follows it is not looked at more closely.
    assert_eq!(
        validate_base64(b"SG8=!"),
        Err("invalid base64: data after padding".to_string()),
    );
    validate_base64(b"=").unwrap();
    validate_base64(b"+/").unwrap();
}

// -- extract_body ---------------------------------------------------------

#[test]
fn extract_body_from_request() {
    let req = b"POST /v1/svc/op HTTP/1.1\r\nHost: x\r\n\r\nSGVsbG8=";
    let body = extract_body(req).unwrap();
    assert_eq!(body, b"SGVsbG8=");
}

#[test]
fn extract_body_missing_headers_end() {
    let req = b"POST /v1/svc/op HTTP/1.1\r\nHost: x";
    assert!(extract_body(req).is_err());
}

#[test]
fn extract_body_first_terminator() {
    assert_eq!(find_header_end(b"a\r\n\r\nb\r\n\r\n"), Some(1));
    assert_eq!(find_header_end(b"\r\n\r"), None);
    assert_eq!(extract_body(b"\r\n\r\n"), Ok(&b""[..]));
    assert_eq!(
        extract_body(b"x"),
        Err("incomplete HTTP headers in peek buffer".to_string()),
    );
}

// -- extract_request_path -------------------------------------------------

#[test]
fn extract_path_get() {
    let req = b"GET /metadata HTTP/1.1\r\n";
    assert_eq!(extract_request_path(req).unwrap(), "metadata");
}

#[test]
fn extract_path_post() {
    let req = b"POST /v1/svc/invoke HTTP/1.1\r\n";
    assert_eq!(extract_request_path(req).unwrap(), "v1/svc/invoke");
}

#[test]
fn extract_path_errors() {
    assert_eq!(
        extract_request_path(b"GET /metadata"),
        Err("invalid HTTP/1.1 request line".to_string()),
    );
    assert_eq!(
        extract_request_path(b"GET"),
        Err("invalid HTTP/1.1 request line".to_string()),
    );
    assert_eq!(
        extract_request_path(b"GET /\xff HTTP/1.1\r\n"),
        Err("request-target is not valid UTF-8".to_string()),
    );
    assert_eq!(
        extract_request_path(b"GET * HTTP/1.1\r\n"),
        Err("expected request-target to start with /".to_string()),
    );
}

// -- from_tcp_stream ------------------------------------------------------

#[test]
fn peeked_invocation() {
    let req = b"POST /v1/svc/a/b HTTP/1.1\r\nContent-Length: 8\r\n\r\nSGVsbG8=";
    let connection = HttpConnection::from_tcp_stream(req).unwrap().unwrap();
    assert_eq!(connection.kind, RequestKind::Invocation);
    assert_eq!(connection.version, "v1");
    assert_eq!(connection.service, "svc");
    assert_eq!(connection.route, "a/b");
    assert_eq!(connection.raw_path, "v1/svc/a/b");
}

#[test]
fn peeked_metadata() {
    let req = b"GET /metadata/v1 HTTP/1.1\r\n\r\n";
    let connection = HttpConnection::from_tcp_stream(req).unwrap().unwrap();
    assert_eq!(connection.kind, RequestKind::Metadata);
    assert_eq!(connection.version, "");
    assert_eq!(connection.service, "");
    assert_eq!(connection.route, "");
    assert_eq!(connection.raw_path, "metadata/v1");
}

#[test]
fn peeked_too_little() {
    assert!(HttpConnection::from_tcp_stream(b"GET /metadata H").unwrap().is_none());
    assert_eq!(
        HttpConnection::from_tcp_stream(b"").err(),
        Some("connection closed".to_string()),
    );
}

#[test]
fn peeked_refused() {
    assert_eq!(
        HttpConnection::from_tcp_stream(b"PUT /v1/svc/op HTTP/1.1\r\n\r\n").err(),
        Some("unsupported HTTP method: only GET and POST are accepted".to_string()),
    );
    assert_eq!(
        HttpConnection::from_tcp_stream(b"GET /metadatas HTTP/1.1\r\n\r\n").err(),
        Some("GET requests must target /metadata".to_string()),
    );
    assert_eq!(
        HttpConnection::from_tcp_stream(b"POST /v1/svc/op HTTP/1.1\r\n\r\n").err(),
        Some("POST body must not be empty".to_string()),
    );
}
