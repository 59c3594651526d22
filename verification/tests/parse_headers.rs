use std::str::FromStr;

use actix_http::header::{HeaderMap, HeaderName, HeaderValue};
use bare_server_rs::bare_errors::{BareError, ErrorStatus};
use bare_server_rs::parse_headers::{
    get_header, parse_headers, parse_headers_checked, BareHeaderData, BareRemote, ToUri,
};

fn request(pairs: &[(&str, &str)]) -> HeaderMap {
    let mut m = HeaderMap::new();
    for (k, v) in pairs {
        m.append(HeaderName::from_str(k).unwrap(), HeaderValue::from_str(v).unwrap());
    }
    m
}

fn full_request(bare_headers: &str, forward: &str) -> HeaderMap {
    request(&[
        ("x-bare-host", "example.com"),
        ("x-bare-port", "443"),
        ("x-bare-protocol", "https:"),
        ("x-bare-path", "/index.html"),
        ("x-bare-headers", bare_headers),
        ("x-bare-forward-headers", forward),
        ("accept-language", "en"),
        ("user-agent", "test agent"),
    ])
}

fn expect_error(headers: &HeaderMap) -> BareError {
    match parse_headers(headers) {
        Err(e) => e,
        Ok(_) => panic!("expected the request to be refused"),
    }
}

fn value(data: &BareHeaderData, name: &str) -> Option<String> {
    data.headers.get(name).map(|v| v.to_str().unwrap().to_string())
}

#[test]
fn get_header_reads_first_visible_value() {
    let mut m = request(&[("x-test", "one"), ("X-Test", "two")]);
    assert_eq!(get_header(&m, "x-test"), Some("one"));
    assert_eq!(get_header(&m, "X-TEST"), Some("one"));
    assert_eq!(get_header(&m, "not here"), None);
    m.insert(HeaderName::from_str("x-bin").unwrap(), HeaderValue::from_bytes(b"caf\xc3\xa9").unwrap());
    assert_eq!(get_header(&m, "x-bin"), None);
}

#[test]
fn missing_host_is_refused() {
    let e = expect_error(&request(&[]));
    assert_eq!(e.code, "MISSING_BARE_HEADER");
    assert_eq!(e.id, "request.headers.x-bare-host");
    assert_eq!(e.message, "Header was not specified.");
    assert_eq!(e.status(), Some(ErrorStatus::BadRequest));
}

#[test]
fn port_must_be_an_integer() {
    let e = expect_error(&request(&[("x-bare-host", "h"), ("x-bare-port", "eighty")]));
    assert_eq!(e.code, "INVALID_BARE_HEADER");
    assert_eq!(e.id, "request.headers.x-bare-port");
    assert_eq!(e.message, "Header was not a valid integer.");
    let e = expect_error(&request(&[("x-bare-host", "h"), ("x-bare-port", "2147483648")]));
    assert_eq!(e.message, "Header was not a valid integer.");
    let e = expect_error(&request(&[("x-bare-host", "h"), ("x-bare-port", "-2147483648")]));
    assert_eq!(e.id, "request.headers.x-bare-protocol");
}

#[test]
fn protocol_must_be_known() {
    let e = expect_error(&request(&[("x-bare-host", "h"), ("x-bare-port", "+80"), ("x-bare-protocol", "ftp:")]));
    assert_eq!(e.code, "INVALID_BARE_HEADER");
    assert_eq!(e.id, "request.headers.x-bare-protocol");
    assert_eq!(e.message, "Header was invalid");
}

#[test]
fn missing_path_is_refused() {
    let e = expect_error(&request(&[("x-bare-host", "h"), ("x-bare-port", "80"), ("x-bare-protocol", "ws:")]));
    assert_eq!(e.id, "request.headers.x-bare-path");
}

#[test]
fn missing_bare_headers_is_refused() {
    let e = expect_error(&request(&[
        ("x-bare-host", "h"),
        ("x-bare-port", "80"),
        ("x-bare-protocol", "wss:"),
        ("x-bare-path", "/"),
    ]));
    assert_eq!(e.code, "MISSING_BARE_HEADER");
    assert_eq!(e.id, "request.headers.x-bare-headers");
}

#[test]
fn bare_headers_must_be_a_json_object() {
    let e = expect_error(&full_request("[]", "[]"));
    assert_eq!(e.code, "INVALID_BARE_HEADER");
    assert_eq!(e.id, "bare.headers.x-bare-forward-headers");
    assert_eq!(e.message, "Header was not an array of Strings.");
}

#[test]
fn bare_header_entries_must_be_strings_or_string_lists() {
    for json in ["{\"a\":1}", "{\"a\":[\"x\",2]}", "{\"a\":null}"] {
        let e = expect_error(&full_request(json, "[]"));
        assert_eq!(e.code, "INVALID_BARE_HEADER");
        assert_eq!(e.id, "bare.headers.x-bare-headers");
        assert_eq!(e.message, "Header was not a String.");
    }
}

#[test]
fn missing_forward_headers_is_refused() {
    let e = expect_error(&request(&[
        ("x-bare-host", "h"),
        ("x-bare-port", "80"),
        ("x-bare-protocol", "http:"),
        ("x-bare-path", "/"),
        ("x-bare-headers", "{}"),
    ]));
    assert_eq!(e.id, "request.headers.x-bare-forward-headers");
}

#[test]
fn forward_headers_must_be_a_json_list() {
    let e = expect_error(&full_request("{}", "{}"));
    assert_eq!(e.id, "bare.headers.x-bare-forward-headers");
    assert_eq!(e.message, "Header was not an array of Strings.");
}

#[test]
fn accepted_request_sets_and_forwards_headers() {
    let data = match parse_headers(&full_request(
        "{\"Host\":\"example.com\",\"x-list\":[\"a\",\"b\\\"c\"]}",
        "[\"accept-language\",\"x-absent\",7,\"User-Agent\"]",
    )) {
        Ok(d) => d,
        Err(e) => panic!("refused: {:?}", e),
    };
    assert_eq!(value(&data, "x-bare-host").as_deref(), Some("example.com"));
    assert_eq!(value(&data, "x-bare-port").as_deref(), Some("443"));
    assert_eq!(value(&data, "x-bare-protocol").as_deref(), Some("https:"));
    assert_eq!(value(&data, "x-bare-path").as_deref(), Some("/index.html"));
    assert_eq!(value(&data, "host").as_deref(), Some("example.com"));
    assert_eq!(value(&data, "x-list").as_deref(), Some("[\"a\",\"b\\\"c\"]"));
    assert_eq!(value(&data, "accept-language").as_deref(), Some("en"));
    assert_eq!(value(&data, "user-agent").as_deref(), Some("test agent"));
    assert_eq!(value(&data, "x-absent"), None);
    assert_eq!(data.headers.len(), 8);
    assert_eq!(data.remote.host, "");
    assert_eq!(data.remote.port, 0);
}

#[test]
fn checked_reading_reports_invalid_header_names() {
    assert!(parse_headers_checked(&full_request("{\"bad name\":\"x\"}", "[]")).is_none());
    assert!(parse_headers_checked(&full_request("{\"x-a\":\"line\\nbreak\"}", "[]")).is_none());
    // The refusal of the first entry comes before the second entry's bad name.
    match parse_headers_checked(&full_request("{\"a\":1,\"b c\":\"x\"}", "[]")) {
        Some(Err(e)) => assert_eq!(e.message, "Header was not a String."),
        _ => panic!("expected a refusal"),
    }
    match parse_headers_checked(&full_request("{\"x-a\":\"ok\"}", "[]")) {
        Some(Ok(d)) => assert_eq!(value(&d, "x-a").as_deref(), Some("ok")),
        _ => panic!("expected the headers"),
    }
}

#[test]
fn default_remote_builds_a_uri_without_scheme() {
    let remote = BareRemote::default();
    let uri = remote.to_uri().unwrap();
    assert_eq!(uri.host(), Some(""));
    assert_eq!(uri.port_u16(), Some(0));
}

#[test]
fn remote_with_scheme_host_and_path_has_a_uri() {
    let remote = BareRemote {
        host: "example.com".to_string(),
        port: 8080,
        path: "/a?b=c".to_string(),
        protocol: "http".to_string(),
    };
    assert_eq!(remote.to_uri().unwrap().to_string(), "http://example.com:8080/a?b=c");
    let remote = BareRemote { protocol: "http:".to_string(), ..remote };
    assert!(remote.to_uri().is_none());
}
