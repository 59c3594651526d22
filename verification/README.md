# bare_server_rs

A Bare server (TompHTTP Bare Server V1) whose request rules are verified with
Verus.

- `src/` is the verified library:
  - `websocket_protocol`: the codec that carries websocket metadata inside
    `Sec-WebSocket-Protocol` (validity check, `%`-encoding, decoding), with
    the round-trip laws.
  - `parse_headers`: reading the `x-bare-*` headers of a request into the
    headers that are forwarded, or the error the request is refused with.
  - `serve`: the decisions behind the routes (new websocket metadata, the
    metadata key, reading the metadata from `Sec-WebSocket-Protocol`).
  - `bare_errors`: the errors and the status each error code is answered with.
  - `header_map`, `json`: actix's `HeaderMap` and `serde_json`, behind trusted
    items whose contracts state what those crates do.
  - `text`: characters, hexadecimal and decimal numbers.
- `app/` is the actix-web program around it: the routes, the websocket actor,
  the proxied request, and serde copies of the library's types.
- `tests/` runs the library on concrete requests and texts.
