//! The decisions behind the Bare server's routes: the metadata that a new
//! websocket gets, the lookup key of the metadata route, and how the
//! websocket upgrade finds its metadata in `Sec-WebSocket-Protocol`.

use std::collections::HashMap;

use actix_http::header::HeaderMap;
use rand::RngCore;
use vstd::prelude::*;

use crate::bare_errors::{lemma_refusal_code_statuses, status_of_code, BareError, ErrorStatus, ErrorText};
use crate::header_map::header_map_get_str;
use crate::header_map::{ascii_text, header_map_contents, is_visible_ascii, is_visible_ascii_byte};
use crate::json::{
    distinct_names, json_object_entries, json_string_object, pairs_view, same_pairs, same_text_entries,
    write_json_string_map, JsonItemView,
};
use crate::parse_headers::{
    header_text, is_default_remote, parse_headers_checked, parse_outcome, BareHeaderData, BareRemote,
};
use crate::text::{chars_of, encode_hex, hex_lower_text, lemma_hex_lower_text_len, nat_text, push_decimal, str_equal};
use crate::websocket_protocol::{
    decode_outcome, decode_text, encode_text, is_valid_char, is_valid_protocol, is_valid_protocol_text,
    lemma_decode_encode_roundtrip, lemma_encoded_is_valid_protocol, round_trips, DecodeOutcome,
};

verus! {

broadcast use vstd::string::group_string_axioms;

/// The metadata kept for a websocket.
pub struct AppValue {
    pub remote: Option<BareRemote>,
    pub headers: Option<HashMap<String, String>>,
    pub forward_headers: Option<Vec<String>>,
    pub id: Option<String>,
}

impl Default for AppValue {
    fn default() -> (res: Self)
        ensures
            res.remote is None,
            res.headers is None,
            res.forward_headers is None,
            res.id is None,
    {
        AppValue { remote: None, headers: None, forward_headers: None, id: None }
    }
}

/// The first value of header `name`, if it is present and visible ASCII.
pub fn get_header<'a>(headers: &'a HeaderMap, name: &str) -> (res: Option<&'a str>)
    ensures
        match res {
            Some(v) => header_text(*headers, name@) == Some(v@),
            None => header_text(*headers, name@) is None,
        },
{
    header_map_get_str(headers, name)
}

/// Fills `bytes` from the thread's random number generator (`rand::thread_rng`
/// and `RngCore::fill_bytes`); only the length is known afterwards.
#[verifier::external_body]
fn fill_random(bytes: &mut Vec<u8>)
    ensures
        final(bytes)@.len() == old(bytes)@.len(),
{
    rand::thread_rng().fill_bytes(bytes.as_mut_slice());
}

/// `byte_length` random bytes in lower-case hexadecimal, two digits each.
pub fn random_hex(byte_length: usize) -> (res: String)
    ensures
        exists|bytes: Seq<u8>| bytes.len() == byte_length && res@ == #[trigger] hex_lower_text(bytes),
        res@.len() == 2 * byte_length,
{
    let mut bytes: Vec<u8> = Vec::new();
    let mut i: usize = 0;
    while i < byte_length
        invariant
            i <= byte_length,
            bytes@.len() == i,
        decreases byte_length - i,
    {
        bytes.push(0);
        i = i + 1;
    }
    fill_random(&mut bytes);
    let res = encode_hex(bytes.as_slice());
    assert(res@ == hex_lower_text(bytes@));
    proof {
        lemma_hex_lower_text_len(bytes@);
    }
    res
}

/// The id and metadata of a new websocket: eight random bytes in hexadecimal,
/// and metadata that holds only that id.
pub fn new_meta() -> (res: (String, AppValue))
    ensures
        exists|bytes: Seq<u8>| bytes.len() == 8 && res.0@ == #[trigger] hex_lower_text(bytes),
        res.0@.len() == 16,
        res.1.id matches Some(id) && id@ == res.0@,
        res.1.remote is None,
        res.1.headers is None,
        res.1.forward_headers is None,
{
    let id = random_hex(8);
    let mut value = AppValue::default();
    value.id = Some(id.clone());
    (id, value)
}

/// The error for a metadata request without `X-Bare-ID`.
pub open spec fn missing_id_error() -> ErrorText {
    ErrorText { code: "MISSING_BARE_HEADER"@, id: "X-Bare-ID"@, message: "Missing header X-Bare-ID"@ }
}

/// The key under which the metadata route looks a websocket up: the
/// `X-Bare-ID` header; without it the request is refused.
pub fn ws_meta_key<'a>(headers: &'a HeaderMap) -> (res: Result<&'a str, BareError>)
    ensures
        match header_text(*headers, "X-Bare-ID"@) {
            Some(id) => res matches Ok(k) && k@ == id,
            None => res matches Err(e) && e@ == missing_id_error(),
        },
{
    match get_header(headers, "X-Bare-ID") {
        Some(id) => Ok(id),
        None => Err(
            BareError {
                code: "MISSING_BARE_HEADER".to_owned(),
                id: "X-Bare-ID".to_owned(),
                message: "Missing header X-Bare-ID".to_owned(),
            },
        ),
    }
}

/// The position of the first `c` in `s`, or the length of `s` where there is none.
pub open spec fn first_index_of(s: Seq<char>, c: char) -> int
    decreases s.len(),
{
    if s.len() == 0 {
        0
    } else if s[0] == c {
        0
    } else {
        1 + first_index_of(s.drop_first(), c)
    }
}

/// The second of the comma-separated parts of `s`, if `s` has a comma.
pub open spec fn second_part(s: Seq<char>) -> Option<Seq<char>> {
    let p = first_index_of(s, ',');
    if p >= s.len() {
        None
    } else {
        let rest = s.skip(p + 1);
        Some(rest.take(first_index_of(rest, ',')))
    }
}

/// What the websocket upgrade reads from `Sec-WebSocket-Protocol`.
pub enum WebsocketMeta {
    /// The metadata JSON: the second protocol decoded, or empty text where
    /// that protocol holds a character a protocol may not hold.
    Json(String),
    /// The header has no second protocol (taking it panics).
    NoMetaProtocol,
    /// The second protocol does not decode (unwrapping the decoding panics).
    Undecodable,
    /// Decoding the second protocol slices outside character boundaries (it panics).
    BadSlice,
}

impl WebsocketMeta {
    /// Whether this is what the upgrade reads from the header text `header`.
    pub open spec fn read_from(self, header: Seq<char>) -> bool {
        match second_part(header) {
            None => self is NoMetaProtocol,
            Some(b) => if is_valid_protocol_text(b) {
                match decode_text(b) {
                    None => self is BadSlice,
                    Some(None) => self is Undecodable,
                    Some(Some(t)) => self matches WebsocketMeta::Json(j) && j@ == t,
                }
            } else {
                self matches WebsocketMeta::Json(j) && j@.len() == 0
            },
        }
    }
}

proof fn lemma_first_index_bounds(s: Seq<char>, c: char)
    ensures
        0 <= first_index_of(s, c) <= s.len(),
        forall|q: int| 0 <= q < first_index_of(s, c) ==> s[q] != c,
        first_index_of(s, c) < s.len() ==> s[first_index_of(s, c)] == c,
    decreases s.len(),
{
    if s.len() > 0 && s[0] != c {
        lemma_first_index_bounds(s.drop_first(), c);
        assert forall|q: int| 0 <= q < first_index_of(s, c) implies s[q] != c by {
            if q > 0 {
                assert(s[q] == s.drop_first()[q - 1]);
            }
        }
    }
}

/// A position before which there is no `c` and at which `c` stands (or the
/// end) is the first position of `c`.
proof fn lemma_first_index_is(s: Seq<char>, c: char, p: int)
    requires
        0 <= p <= s.len(),
        forall|q: int| 0 <= q < p ==> s[q] != c,
        p < s.len() ==> s[p] == c,
    ensures
        first_index_of(s, c) == p,
    decreases s.len(),
{
    if s.len() > 0 && p > 0 {
        lemma_first_index_is(s.drop_first(), c, p - 1);
    }
}

/// Reads the websocket metadata from the `Sec-WebSocket-Protocol` header:
/// the second comma-separated protocol, decoded where it is a valid protocol.
pub fn websocket_meta(protocol_header: &str) -> (res: WebsocketMeta)
    ensures
        res.read_from(protocol_header@),
{
    let cs = chars_of(protocol_header);
    let ghost s = cs@;
    let mut p: usize = 0;
    while p < cs.len() && cs[p] != ','
        invariant
            cs@ == s,
            p <= cs.len(),
            forall|q: int| 0 <= q < p ==> s[q] != ',',
        decreases cs.len() - p,
    {
        p = p + 1;
    }
    proof {
        lemma_first_index_is(s, ',', p as int);
    }
    if p >= cs.len() {
        return WebsocketMeta::NoMetaProtocol;
    }
    let ghost rest = s.skip(p + 1);
    let mut second = String::new();
    let mut q: usize = p + 1;
    while q < cs.len() && cs[q] != ','
        invariant
            cs@ == s,
            rest == s.skip(p + 1),
            p + 1 <= q <= cs.len(),
            second@ == rest.take(q - (p + 1)),
            forall|r: int| 0 <= r < q - (p + 1) ==> rest[r] != ',',
        decreases cs.len() - q,
    {
        second.push(cs[q]);
        assert(rest.take(q + 1 - (p + 1)) =~= rest.take(q - (p + 1)).push(cs@[q as int]));
        q = q + 1;
    }
    proof {
        lemma_first_index_is(rest, ',', q - (p + 1));
    }
    let b = second.as_str();
    if is_valid_protocol(b) {
        match decode_outcome(b) {
            DecodeOutcome::Decoded(t) => WebsocketMeta::Json(t),
            DecodeOutcome::NotHex => WebsocketMeta::Undecodable,
            DecodeOutcome::BadSlice => WebsocketMeta::BadSlice,
        }
    } else {
        WebsocketMeta::Json(String::new())
    }
}

/// Law: the second protocol of `Sec-WebSocket-Protocol` that a client wrote
/// with `encode_protocol` reads back as the metadata it encoded, for every
/// text whose escaped characters have two-digit codes.
pub proof fn lemma_meta_reads_back(first: Seq<char>, meta: Seq<char>, m: WebsocketMeta)
    requires
        !first.contains(','),
        forall|i: int| 0 <= i < meta.len() ==> #[trigger] round_trips(meta[i]),
        m.read_from(first + seq![','] + encode_text(meta)),
    ensures
        m matches WebsocketMeta::Json(j) && j@ == meta,
{
    let e = encode_text(meta);
    let h = first + seq![','] + e;
    lemma_encoded_is_valid_protocol(meta);
    lemma_decode_encode_roundtrip(meta);
    assert forall|q: int| 0 <= q < first.len() implies h[q] != ',' by {
        assert(h[q] == first[q]);
    }
    lemma_first_index_is(h, ',', first.len() as int);
    assert(h.skip(first.len() as int + 1) =~= e);
    assert forall|q: int| 0 <= q < e.len() implies e[q] != ',' by {
        assert(is_valid_char(e[q]));
    }
    lemma_first_index_is(e, ',', e.len() as int);
    assert(e.take(e.len() as int) =~= e);
}

/// Law: a metadata request without `X-Bare-ID` is answered with 400 Bad Request.
pub proof fn lemma_missing_id_is_bad_request()
    ensures
        status_of_code(missing_id_error().code) == Some(ErrorStatus::BadRequest),
{
    lemma_refusal_code_statuses();
}

/// What the `/v1/` route does with a request.
pub enum V1Action {
    /// Upgrade to a websocket with the metadata read from `Sec-WebSocket-Protocol`.
    Websocket(WebsocketMeta),
    /// Refuse the request with this error.
    Refuse(BareError),
    /// Forward the request as its bare headers say.
    Proxy(BareHeaderData),
}

/// The error for a websocket upgrade without `Sec-WebSocket-Protocol` (its
/// code has no status, so answering it panics).
pub open spec fn missing_protocol_error() -> ErrorText {
    ErrorText { code: "A"@, id: "a"@, message: "a"@ }
}

/// Whether a request asks for a websocket upgrade.
pub open spec fn is_websocket_upgrade(headers: HeaderMap) -> bool {
    header_text(headers, "Upgrade"@) == Some("websocket"@)
}

/// Decides what the `/v1/` route does: an `Upgrade: websocket` request is
/// upgraded with the metadata of its second protocol, or refused without
/// `Sec-WebSocket-Protocol`; any other request is refused or forwarded as its
/// bare headers say. `None` where reading the bare headers panics.
pub fn v1_action(headers: &HeaderMap) -> (res: Option<V1Action>)
    ensures
        if is_websocket_upgrade(*headers) {
            match header_text(*headers, "Sec-WebSocket-Protocol"@) {
                Some(p) => res matches Some(V1Action::Websocket(m)) && m.read_from(p),
                None => res matches Some(V1Action::Refuse(e)) && e@ == missing_protocol_error(),
            }
        } else {
            match parse_outcome(*headers) {
                None => res is None,
                Some(Err(e)) => res matches Some(V1Action::Refuse(x)) && x@ == e,
                Some(Ok(m)) => res matches Some(V1Action::Proxy(d)) && is_default_remote(d.remote)
                    && header_map_contents(d.headers) == m,
            }
        },
{
    if let Some(upgrade) = get_header(headers, "Upgrade") {
        if str_equal(upgrade, "websocket") {
            return match get_header(headers, "Sec-WebSocket-Protocol") {
                Some(p) => Some(V1Action::Websocket(websocket_meta(p))),
                None => Some(
                    V1Action::Refuse(
                        BareError { code: "A".to_owned(), id: "a".to_owned(), message: "a".to_owned() },
                    ),
                ),
            };
        }
    }
    match parse_headers_checked(headers) {
        None => None,
        Some(Err(e)) => Some(V1Action::Refuse(e)),
        Some(Ok(d)) => Some(V1Action::Proxy(d)),
    }
}

/// The error for a forwarded request that could not be sent.
pub open spec fn upstream_failure() -> ErrorText {
    ErrorText { code: "HOST_NOT_FOUND"@, id: "a"@, message: "cow"@ }
}

/// The error a forwarded request that could not be sent is refused with; it
/// is answered 500 Internal Server Error.
pub fn upstream_failure_error() -> (e: BareError)
    ensures
        e@ == upstream_failure(),
        status_of_code(e.code@) == Some(ErrorStatus::InternalServerError),
{
    proof {
        lemma_refusal_code_statuses();
    }
    BareError { code: "HOST_NOT_FOUND".to_owned(), id: "a".to_owned(), message: "cow".to_owned() }
}

/// The upstream headers as texts: each name with its value's bytes.
pub open spec fn upstream_view(upstream: Seq<(String, Vec<u8>)>) -> Seq<(Seq<char>, Seq<u8>)> {
    upstream.map_values(|p: (String, Vec<u8>)| (p.0@, p.1@))
}

/// Every upstream header value is visible ASCII.
pub open spec fn all_visible(upstream: Seq<(Seq<char>, Seq<u8>)>) -> bool {
    forall|i: int| 0 <= i < upstream.len() ==> is_visible_ascii(#[trigger] upstream[i].1)
}

/// The text of each upstream header name, the last value of a name winning.
pub open spec fn upstream_texts(upstream: Seq<(Seq<char>, Seq<u8>)>) -> Map<Seq<char>, Seq<char>>
    decreases upstream.len(),
{
    if upstream.len() == 0 {
        Map::empty()
    } else {
        upstream_texts(upstream.drop_last()).insert(upstream.last().0, ascii_text(upstream.last().1))
    }
}

/// `es` lists the pairs of `m`, each name once.
pub open spec fn lists_map(es: Seq<(Seq<char>, Seq<char>)>, m: Map<Seq<char>, Seq<char>>) -> bool {
    &&& distinct_names(es)
    &&& forall|i: int| 0 <= i < es.len() ==> m.contains_key(#[trigger] es[i].0) && m[es[i].0] == es[i].1
    &&& forall|k: Seq<char>| #[trigger] m.contains_key(k) ==> exists|i: int| 0 <= i < es.len() && es[i].0 == k
}

/// `text` is the compact JSON object of the pairs of `m`, in some order.
pub open spec fn is_json_text_of_map(text: Seq<char>, m: Map<Seq<char>, Seq<char>>) -> bool {
    exists|es: Seq<(Seq<char>, Seq<char>)>| lists_map(es, m) && text == #[trigger] json_string_object(es)
}

/// The entries `es` read from a JSON object are the pairs of `m`, each value
/// a string, each name once.
pub open spec fn entries_read_back(es: Seq<(Seq<char>, JsonItemView)>, m: Map<Seq<char>, Seq<char>>) -> bool {
    &&& forall|i: int, j: int| 0 <= i < j < es.len() ==> es[i].0 != es[j].0
    &&& forall|i: int| 0 <= i < es.len() ==> m.contains_key(#[trigger] es[i].0) && es[i].1 == JsonItemView::Text(m[es[i].0])
    &&& forall|k: Seq<char>| #[trigger] m.contains_key(k) ==> exists|i: int| 0 <= i < es.len() && es[i].0 == k
}

/// The text of bytes that are all visible ASCII.
fn visible_text(bytes: &Vec<u8>) -> (res: Option<String>)
    ensures
        match res {
            Some(t) => is_visible_ascii(bytes@) && t@ == ascii_text(bytes@),
            None => !is_visible_ascii(bytes@),
        },
{
    let mut t = String::new();
    let mut i: usize = 0;
    while i < bytes.len()
        invariant
            i <= bytes@.len(),
            forall|j: int| 0 <= j < i ==> #[trigger] is_visible_ascii_byte(bytes@[j]),
            t@ == ascii_text(bytes@.take(i as int)),
        decreases bytes.len() - i,
    {
        let b: u8 = bytes[i];
        if !((b >= 32 && b < 127) || b == 9) {
            assert(!is_visible_ascii_byte(bytes@[i as int]));
            return None;
        }
        t.push(b as char);
        assert(ascii_text(bytes@.take(i + 1)) =~= ascii_text(bytes@.take(i as int)).push(b as char));
        i = i + 1;
    }
    assert(bytes@.take(i as int) =~= bytes@);
    Some(t)
}

/// Sets `name` to `text` in a list of pairs with distinct names.
fn set_pair(pairs: &mut Vec<(String, String)>, name: &String, text: String, Ghost(m): Ghost<Map<Seq<char>, Seq<char>>>)
    requires
        lists_map(pairs_view(old(pairs)@), m),
    ensures
        lists_map(pairs_view(final(pairs)@), m.insert(name@, text@)),
{
    let ghost es = pairs_view(pairs@);
    let ghost m2 = m.insert(name@, text@);
    let mut i: usize = 0;
    while i < pairs.len()
        invariant
            i <= pairs@.len(),
            es == pairs_view(pairs@),
            lists_map(es, m),
            m2 == m.insert(name@, text@),
            forall|j: int| 0 <= j < i ==> (#[trigger] es[j]).0 != name@,
        decreases pairs.len() - i,
    {
        if str_equal(pairs[i].0.as_str(), name.as_str()) {
            let ghost k = i as int;
            pairs.set(i, (name.clone(), text));
            let ghost es2 = pairs_view(pairs@);
            assert(es2 =~= es.update(k, (name@, text@)));
            assert forall|a: int, b: int| 0 <= a < b < es2.len() implies es2[a].0 != es2[b].0 by {
                assert(es2[a].0 == es[a].0);
                assert(es2[b].0 == es[b].0);
            }
            assert forall|j: int| 0 <= j < es2.len() implies m2.contains_key(#[trigger] es2[j].0) && m2[es2[j].0] == es2[j].1 by {
                if j != k {
                    assert(es[j].0 != es[k].0);
                    assert(m.contains_key(es[j].0));
                }
            }
            assert forall|key: Seq<char>| #[trigger] m2.contains_key(key) implies exists|j: int| 0 <= j < es2.len() && es2[j].0 == key by {
                if key == name@ {
                    assert(es2[k].0 == key);
                } else {
                    assert(m.contains_key(key));
                    let j = choose|j: int| 0 <= j < es.len() && es[j].0 == key;
                    assert(es2[j].0 == key);
                }
            }
            return;
        }
        i = i + 1;
    }
    pairs.push((name.clone(), text));
    let ghost es2 = pairs_view(pairs@);
    assert(es2 =~= es.push((name@, text@)));
    assert forall|a: int, b: int| 0 <= a < b < es2.len() implies es2[a].0 != es2[b].0 by {
        if b < es.len() {
            assert(es2[a].0 == es[a].0);
            assert(es2[b].0 == es[b].0);
        } else {
            assert(es2[a] == es[a]);
        }
    }
    assert forall|j: int| 0 <= j < es2.len() implies m2.contains_key(#[trigger] es2[j].0) && m2[es2[j].0] == es2[j].1 by {
        if j < es.len() {
            assert(es2[j] == es[j]);
            assert(m.contains_key(es[j].0));
        }
    }
    assert forall|key: Seq<char>| #[trigger] m2.contains_key(key) implies exists|j: int| 0 <= j < es2.len() && es2[j].0 == key by {
        if key == name@ {
            assert(es2[es.len() as int].0 == key);
        } else {
            assert(m.contains_key(key));
            let j = choose|j: int| 0 <= j < es.len() && es[j].0 == key;
            assert(es2[j].0 == key);
        }
    }
}

/// Pairs listed in another order still list the same map.
proof fn lemma_same_pairs_list_map(es: Seq<(Seq<char>, Seq<char>)>, r: Seq<(Seq<char>, Seq<char>)>, m: Map<Seq<char>, Seq<char>>)
    requires
        lists_map(r, m),
        same_pairs(es, r),
    ensures
        lists_map(es, m),
{
    assert forall|i: int| 0 <= i < es.len() implies m.contains_key(#[trigger] es[i].0) && m[es[i].0] == es[i].1 by {
        let j = choose|j: int| 0 <= j < r.len() && es[i] == r[j];
        assert(m.contains_key(r[j].0));
    }
    assert forall|key: Seq<char>| #[trigger] m.contains_key(key) implies exists|i: int| 0 <= i < es.len() && es[i].0 == key by {
        let j = choose|j: int| 0 <= j < r.len() && r[j].0 == key;
        assert(exists|i: int| 0 <= i < es.len() && es[i] == #[trigger] r[j]);
        let i = choose|i: int| 0 <= i < es.len() && es[i] == r[j];
        assert(es[i].0 == key);
    }
}

/// Entries read back as the pairs of a list read back as the map it lists.
proof fn lemma_text_entries_read_back(r: Seq<(Seq<char>, Seq<char>)>, m: Map<Seq<char>, Seq<char>>, text: Seq<char>)
    requires
        lists_map(r, m),
        json_object_entries(text) is Some,
        same_text_entries(json_object_entries(text)->0, r),
    ensures
        entries_read_back(json_object_entries(text)->0, m),
{
    let es = json_object_entries(text)->0;
    assert forall|i: int| 0 <= i < es.len() implies m.contains_key(#[trigger] es[i].0) && es[i].1 == JsonItemView::Text(m[es[i].0]) by {
        let j = choose|j: int| 0 <= j < r.len() && es[i].0 == r[j].0 && es[i].1 == JsonItemView::Text(r[j].1);
        assert(m.contains_key(r[j].0));
    }
    assert forall|k: Seq<char>| #[trigger] m.contains_key(k) implies exists|i: int| 0 <= i < es.len() && es[i].0 == k by {
        let j = choose|j: int| 0 <= j < r.len() && r[j].0 == k;
        assert(exists|i: int| 0 <= i < es.len() && es[i].0 == r[j].0 && es[i].1 == JsonItemView::Text(r[j].1));
    }
}

/// The three headers of the answer to a forwarded request: `X-Bare-Status`
/// and `X-Bare-Status-text` (both the status code in decimal) and
/// `X-Bare-Headers` (the upstream headers as a JSON object of texts, the last
/// value of a name winning). `None` where an upstream value is not visible
/// ASCII (reading it as text panics).
pub fn bare_answer_headers(status: u16, upstream: &Vec<(String, Vec<u8>)>) -> (res: Option<(String, String, String)>)
    requires
        100 <= status <= 999,
    ensures
        res is None <==> !all_visible(upstream_view(upstream@)),
        res matches Some(t) ==> t.0@ == nat_text(status as nat) && t.1@ == nat_text(status as nat)
            && is_json_text_of_map(t.2@, upstream_texts(upstream_view(upstream@)))
            && json_object_entries(t.2@) is Some
            && entries_read_back(json_object_entries(t.2@)->0, upstream_texts(upstream_view(upstream@))),
{
    let ghost uv = upstream_view(upstream@);
    let mut pairs: Vec<(String, String)> = Vec::new();
    let mut k: usize = 0;
    assert(uv.take(0) =~= Seq::<(Seq<char>, Seq<u8>)>::empty());
    while k < upstream.len()
        invariant
            k <= upstream@.len(),
            uv == upstream_view(upstream@),
            all_visible(uv.take(k as int)),
            lists_map(pairs_view(pairs@), upstream_texts(uv.take(k as int))),
        decreases upstream.len() - k,
    {
        let entry = &upstream[k];
        assert(uv[k as int] == (entry.0@, entry.1@));
        match visible_text(&entry.1) {
            None => {
                assert(!is_visible_ascii(uv[k as int].1));
                return None;
            },
            Some(text) => {
                let ghost before = upstream_texts(uv.take(k as int));
                set_pair(&mut pairs, &entry.0, text, Ghost(before));
                assert(uv.take(k + 1).drop_last() =~= uv.take(k as int));
                assert forall|i: int| 0 <= i < k + 1 implies is_visible_ascii(#[trigger] uv.take(k + 1)[i].1) by {
                    if i < k {
                        assert(uv.take(k + 1)[i] == uv.take(k as int)[i]);
                    }
                }
            },
        }
        k = k + 1;
    }
    assert(uv.take(k as int) =~= uv);
    let mut code = String::new();
    push_decimal(&mut code, status as u32);
    let code_text = code.clone();
    let json = write_json_string_map(&pairs);
    proof {
        let r = pairs_view(pairs@);
        let es = choose|es: Seq<(Seq<char>, Seq<char>)>| same_pairs(es, r) && json@ == #[trigger] json_string_object(es);
        lemma_same_pairs_list_map(es, r, upstream_texts(uv));
        assert(lists_map(es, upstream_texts(uv)) && json@ == json_string_object(es));
        lemma_text_entries_read_back(r, upstream_texts(uv), json@);
    }
    Some((code, code_text, json))
}

} // verus!
