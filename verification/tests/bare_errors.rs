use bare_server_rs::bare_errors::{BareError, ErrorStatus};

fn error(code: &str) -> BareError {
    BareError { code: code.to_string(), id: "id".to_string(), message: "message".to_string() }
}

#[test]
fn server_side_codes_are_internal_errors() {
    for code in ["UNKNOWN", "HOST_NOT_FOUND", "CONNECTION_RESET", "CONNECTION_REFUSED", "CONNECTION_TIMEOUT"] {
        assert_eq!(error(code).status(), Some(ErrorStatus::InternalServerError));
    }
}

#[test]
fn header_codes_are_bad_requests() {
    for code in ["MISSING_BARE_HEADER", "INVALID_BARE_HEADER", "UNKNOWN_BARE_HEADER", "INVALID_HEADER"] {
        assert_eq!(error(code).status(), Some(ErrorStatus::BadRequest));
    }
}

#[test]
fn forbidden_code_is_forbidden() {
    assert_eq!(error("FORBIDDEN_BARE_HEADER").status(), Some(ErrorStatus::Forbidden));
}

#[test]
fn unknown_codes_have_no_status() {
    assert_eq!(error("A").status(), None);
    assert_eq!(error("").status(), None);
    assert_eq!(error("missing_bare_header").status(), None);
}
