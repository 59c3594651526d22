//! The errors a Bare server answers with, and the HTTP status each error code
//! is answered with.

use vstd::prelude::*;

use crate::text::str_equal;

verus! {

/// An error as the Bare protocol reports it: a code, the id of what was wrong
/// and a message.
#[derive(Debug)]
pub struct BareError {
    pub code: String,
    pub id: String,
    pub message: String,
}

/// The mathematical form of a `BareError`.
pub struct ErrorText {
    pub code: Seq<char>,
    pub id: Seq<char>,
    pub message: Seq<char>,
}

impl View for BareError {
    type V = ErrorText;

    open spec fn view(&self) -> ErrorText {
        ErrorText { code: self.code@, id: self.id@, message: self.message@ }
    }
}

/// The HTTP statuses that errors are answered with.
#[derive(PartialEq, Eq, Structural, Debug, Clone, Copy)]
pub enum ErrorStatus {
    /// 500
    InternalServerError,
    /// 400
    BadRequest,
    /// 403
    Forbidden,
}

/// The status an error code is answered with; `None` for a code that the
/// protocol does not know (answering it panics).
pub open spec fn status_of_code(code: Seq<char>) -> Option<ErrorStatus> {
    if code == "UNKNOWN"@ || code == "HOST_NOT_FOUND"@ || code == "CONNECTION_RESET"@
        || code == "CONNECTION_REFUSED"@ || code == "CONNECTION_TIMEOUT"@ {
        Some(ErrorStatus::InternalServerError)
    } else if code == "MISSING_BARE_HEADER"@ || code == "INVALID_BARE_HEADER"@
        || code == "UNKNOWN_BARE_HEADER"@ || code == "INVALID_HEADER"@ {
        Some(ErrorStatus::BadRequest)
    } else if code == "FORBIDDEN_BARE_HEADER"@ {
        Some(ErrorStatus::Forbidden)
    } else {
        None
    }
}

impl BareError {
    /// The status this error is answered with (its body is the error as JSON).
    pub fn status(&self) -> (res: Option<ErrorStatus>)
        ensures
            res == status_of_code(self.code@),
    {
        let code = self.code.as_str();
        if str_equal(code, "UNKNOWN") || str_equal(code, "HOST_NOT_FOUND") || str_equal(
            code,
            "CONNECTION_RESET",
        ) || str_equal(code, "CONNECTION_REFUSED") || str_equal(code, "CONNECTION_TIMEOUT") {
            Some(ErrorStatus::InternalServerError)
        } else if str_equal(code, "MISSING_BARE_HEADER") || str_equal(code, "INVALID_BARE_HEADER")
            || str_equal(code, "UNKNOWN_BARE_HEADER") || str_equal(code, "INVALID_HEADER") {
            Some(ErrorStatus::BadRequest)
        } else if str_equal(code, "FORBIDDEN_BARE_HEADER") {
            Some(ErrorStatus::Forbidden)
        } else {
            None
        }
    }
}

/// The statuses of the codes this library refuses requests with: the header
/// codes are answered 400, a failed forward 500.
pub proof fn lemma_refusal_code_statuses()
    ensures
        status_of_code("MISSING_BARE_HEADER"@) == Some(ErrorStatus::BadRequest),
        status_of_code("INVALID_BARE_HEADER"@) == Some(ErrorStatus::BadRequest),
        status_of_code("HOST_NOT_FOUND"@) == Some(ErrorStatus::InternalServerError),
{
    reveal_strlit("UNKNOWN");
    reveal_strlit("HOST_NOT_FOUND");
    reveal_strlit("CONNECTION_RESET");
    reveal_strlit("CONNECTION_REFUSED");
    reveal_strlit("CONNECTION_TIMEOUT");
    reveal_strlit("MISSING_BARE_HEADER");
    reveal_strlit("INVALID_BARE_HEADER");
    assert("UNKNOWN"@.len() == 7);
    assert("HOST_NOT_FOUND"@.len() == 14);
    assert("CONNECTION_RESET"@.len() == 16);
    assert("CONNECTION_REFUSED"@.len() == 18);
    assert("CONNECTION_TIMEOUT"@.len() == 18);
    assert("MISSING_BARE_HEADER"@.len() == 19);
    assert("INVALID_BARE_HEADER"@.len() == 19);
}

} // verus!
