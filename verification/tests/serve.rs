use std::collections::HashMap;
use std::str::FromStr;

use actix_http::header::{HeaderMap, HeaderName, HeaderValue};
use bare_server_rs::bare_errors::ErrorStatus;
use bare_server_rs::serve::{
    bare_answer_headers, get_header, new_meta, random_hex, upstream_failure_error, v1_action, websocket_meta,
    ws_meta_key, AppValue, V1Action, WebsocketMeta,
};
use bare_server_rs::text::encode_hex;
use bare_server_rs::websocket_protocol::encode_protocol;

fn is_lower_hex(s: &str) -> bool {
    s.chars().all(|c| c.is_ascii_digit() || ('a'..='f').contains(&c))
}

#[test]
fn hex_is_two_lower_case_digits_per_byte() {
    assert_eq!(encode_hex(&[0x00, 0x0f, 0xa5, 0xff]), "000fa5ff");
    assert_eq!(encode_hex(&[]), "");
}

#[test]
fn random_hex_has_two_digits_per_byte() {
    let h = random_hex(8);
    assert_eq!(h.len(), 16);
    assert!(is_lower_hex(&h));
    assert_eq!(random_hex(0), "");
}

#[test]
fn new_meta_holds_only_its_id() {
    let (id, value) = new_meta();
    assert_eq!(id.len(), 16);
    assert!(is_lower_hex(&id));
    assert_eq!(value.id.as_deref(), Some(id.as_str()));
    assert!(value.remote.is_none());
    assert!(value.headers.is_none());
    assert!(value.forward_headers.is_none());
}

#[test]
fn default_app_value_is_empty() {
    let v = AppValue::default();
    assert!(v.remote.is_none() && v.headers.is_none() && v.forward_headers.is_none() && v.id.is_none());
}

#[test]
fn meta_key_is_the_bare_id_header() {
    let mut m = HeaderMap::new();
    m.insert(HeaderName::from_str("X-Bare-ID").unwrap(), HeaderValue::from_str("00ff").unwrap());
    assert_eq!(ws_meta_key(&m).ok(), Some("00ff"));
    assert_eq!(get_header(&m, "x-bare-id"), Some("00ff"));
}

#[test]
fn meta_key_missing_is_a_bad_request() {
    let e = ws_meta_key(&HeaderMap::new()).err().unwrap();
    assert_eq!(e.code, "MISSING_BARE_HEADER");
    assert_eq!(e.id, "X-Bare-ID");
    assert_eq!(e.message, "Missing header X-Bare-ID");
    assert_eq!(e.status(), Some(ErrorStatus::BadRequest));
}

#[test]
fn websocket_meta_reads_back_the_encoded_second_protocol() {
    let json = "{\"id\":\"00ff\",\"remote\":null}";
    let header = format!("bare,{}", encode_protocol(json));
    match websocket_meta(&header) {
        WebsocketMeta::Json(j) => assert_eq!(j, json),
        _ => panic!("expected the metadata"),
    }
}

#[test]
fn websocket_meta_without_second_protocol() {
    assert!(matches!(websocket_meta("bare"), WebsocketMeta::NoMetaProtocol));
    assert!(matches!(websocket_meta(""), WebsocketMeta::NoMetaProtocol));
}

#[test]
fn websocket_meta_takes_only_the_second_part() {
    match websocket_meta("bare,abc,def") {
        WebsocketMeta::Json(j) => assert_eq!(j, "abc"),
        _ => panic!("expected the metadata"),
    }
    match websocket_meta("bare,") {
        WebsocketMeta::Json(j) => assert_eq!(j, ""),
        _ => panic!("expected empty metadata"),
    }
}

#[test]
fn websocket_meta_with_invalid_protocol_is_empty() {
    match websocket_meta("bare, %7B%7D") {
        WebsocketMeta::Json(j) => assert_eq!(j, ""),
        _ => panic!("expected empty metadata"),
    }
}

#[test]
fn websocket_meta_that_does_not_decode() {
    assert!(matches!(websocket_meta("bare,%ZZ"), WebsocketMeta::Undecodable));
    assert!(matches!(websocket_meta("bare,ab%"), WebsocketMeta::BadSlice));
}

fn request(pairs: &[(&str, &str)]) -> HeaderMap {
    let mut m = HeaderMap::new();
    for (k, v) in pairs {
        m.append(HeaderName::from_str(k).unwrap(), HeaderValue::from_str(v).unwrap());
    }
    m
}

fn bare_request(extra: &[(&str, &str)], bare_headers: &str) -> HeaderMap {
    let mut pairs = vec![
        ("x-bare-host", "example.com"),
        ("x-bare-port", "443"),
        ("x-bare-protocol", "https:"),
        ("x-bare-path", "/"),
        ("x-bare-headers", bare_headers),
        ("x-bare-forward-headers", "[]"),
    ];
    pairs.extend_from_slice(extra);
    request(&pairs)
}

#[test]
fn websocket_upgrade_reads_the_metadata() {
    let json = "{\"id\":\"00ff\"}";
    let protocol = format!("bare,{}", encode_protocol(json));
    let headers = request(&[("Upgrade", "websocket"), ("Sec-WebSocket-Protocol", protocol.as_str())]);
    match v1_action(&headers) {
        Some(V1Action::Websocket(WebsocketMeta::Json(j))) => assert_eq!(j, json),
        _ => panic!("expected a websocket upgrade"),
    }
}

#[test]
fn websocket_upgrade_without_protocol_is_refused() {
    let headers = bare_request(&[("Upgrade", "websocket")], "{}");
    match v1_action(&headers) {
        Some(V1Action::Refuse(e)) => {
            assert_eq!(e.code, "A");
            assert_eq!(e.id, "a");
            assert_eq!(e.message, "a");
            assert_eq!(e.status(), None);
        }
        _ => panic!("expected a refusal"),
    }
}

#[test]
fn other_upgrades_are_forwarded() {
    let headers = bare_request(&[("Upgrade", "h2c")], "{\"x-a\":\"b\"}");
    match v1_action(&headers) {
        Some(V1Action::Proxy(d)) => {
            assert_eq!(d.headers.get("x-a").unwrap().to_str().unwrap(), "b");
            assert_eq!(d.remote.host, "");
        }
        _ => panic!("expected the request to be forwarded"),
    }
}

#[test]
fn request_without_bare_headers_is_refused() {
    match v1_action(&HeaderMap::new()) {
        Some(V1Action::Refuse(e)) => {
            assert_eq!(e.code, "MISSING_BARE_HEADER");
            assert_eq!(e.id, "request.headers.x-bare-host");
            assert_eq!(e.status(), Some(ErrorStatus::BadRequest));
        }
        _ => panic!("expected a refusal"),
    }
}

#[test]
fn bare_header_with_invalid_name_has_no_action() {
    assert!(v1_action(&bare_request(&[], "{\"bad name\":\"x\"}")).is_none());
}

#[test]
fn failed_send_is_host_not_found() {
    let e = upstream_failure_error();
    assert_eq!(e.code, "HOST_NOT_FOUND");
    assert_eq!(e.id, "a");
    assert_eq!(e.message, "cow");
    assert_eq!(e.status(), Some(ErrorStatus::InternalServerError));
}

fn upstream(pairs: &[(&str, &[u8])]) -> Vec<(String, Vec<u8>)> {
    pairs.iter().map(|(k, v)| (k.to_string(), v.to_vec())).collect()
}

#[test]
fn answer_headers_give_status_and_header_json() {
    let (code, text, json) = bare_answer_headers(200, &upstream(&[("a", b"x")])).unwrap();
    assert_eq!(code, "200");
    assert_eq!(text, "200");
    assert_eq!(json, "{\"a\":\"x\"}");
    let (code, _, json) = bare_answer_headers(404, &upstream(&[])).unwrap();
    assert_eq!(code, "404");
    assert_eq!(json, "{}");
}

#[test]
fn answer_headers_keep_the_last_value_of_a_name() {
    let (_, _, json) = bare_answer_headers(301, &upstream(&[("a", b"x"), ("b", b"q\"r"), ("a", b"y")])).unwrap();
    let m: HashMap<String, String> = serde_json::from_str(&json).unwrap();
    assert_eq!(m.len(), 2);
    assert_eq!(m["a"], "y");
    assert_eq!(m["b"], "q\"r");
}

#[test]
fn answer_headers_refuse_values_that_are_not_visible_ascii() {
    assert!(bare_answer_headers(200, &upstream(&[("a", b"ok"), ("b", &[0x80])])).is_none());
    assert!(bare_answer_headers(200, &upstream(&[("a", b"tab\tok")])).is_some());
}
