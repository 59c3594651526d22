//! A Bare server (TompHTTP Bare Server V1): the request-header rules, the
//! websocket protocol codec and the error answers, verified with Verus.

pub mod bare_errors;
pub mod header_map;
pub mod json;
pub mod parse_headers;
pub mod serve;
pub mod text;
pub mod websocket_protocol;
