//! Reading the `x-bare-*` request headers that tell a Bare server where to
//! forward a request and with which headers.

use actix_http::header::HeaderMap;
use http::Uri;
use vstd::prelude::*;
use vstd::string::StringExecFns;
use vstd::utf8::encode_utf8;

use crate::bare_errors::{lemma_refusal_code_statuses, status_of_code, BareError, ErrorStatus, ErrorText};
use crate::header_map::{
    ascii_text, header_lookup, header_map_contents, header_map_get_str, header_map_insert_str,
    header_map_new, header_name_key, is_header_name, is_header_value, is_header_value_byte,
    is_visible_ascii, is_visible_ascii_byte, no_headers,
};
use crate::json::{
    entries_view, json_list_items, json_object_entries, json_string_list, parse_json_list,
    parse_json_object, write_json_string_list, JsonItem, JsonItemView,
};
use crate::text::{i32_text, i32_to_text, parses_as_i32, parses_as_i32_exec, str_equal};

verus! {

broadcast use vstd::string::group_string_axioms;

/// The remote a Bare request is forwarded to.
pub struct BareRemote {
    pub host: String,
    pub port: i32,
    pub path: String,
    pub protocol: String,
}

/// The remote that `BareRemote::default` gives: empty texts and port 0.
pub open spec fn is_default_remote(r: BareRemote) -> bool {
    &&& r.host@.len() == 0
    &&& r.port == 0
    &&& r.path@.len() == 0
    &&& r.protocol@.len() == 0
}

impl Default for BareRemote {
    fn default() -> (res: Self)
        ensures
            is_default_remote(res),
    {
        BareRemote { host: String::new(), port: 0, path: String::new(), protocol: String::new() }
    }
}

/// `http::Uri`, held as an opaque value.
#[verifier::external_type_specification]
#[verifier::external_body]
pub struct ExUri(Uri);

/// The URI that `Uri::builder()` builds from this scheme, authority and
/// path-and-query; `None` where the builder refuses one of them.
pub uninterp spec fn built_uri(scheme: Seq<char>, authority: Seq<char>, path: Seq<char>) -> Option<Uri>;

/// `Uri::builder().scheme(..).authority(..).path_and_query(..).build()`: the
/// URI built from the three texts, which depends on them alone (`built_uri`).
#[verifier::external_body]
fn build_uri(scheme: &str, authority: &str, path: &str) -> (res: Option<Uri>)
    ensures
        res == built_uri(scheme@, authority@, path@),
{
    Uri::builder().scheme(scheme).authority(authority).path_and_query(path).build().ok()
}

/// The authority of a remote: its host, `:` and its port in decimal.
pub open spec fn remote_authority(host: Seq<char>, port: i32) -> Seq<char> {
    host + seq![':'] + i32_text(port)
}

/// Turning something into the URI it names.
pub trait ToUri {
    fn to_uri(&self) -> Option<Uri>;
}

impl ToUri for BareRemote {
    /// The URI with the remote's protocol as scheme, `host:port` as authority
    /// and its path, if those parts make one.
    fn to_uri(&self) -> (res: Option<Uri>)
        ensures
            res == built_uri(self.protocol@, remote_authority(self.host@, self.port), self.path@),
    {
        let mut authority = self.host.clone();
        proof {
            reveal_strlit(":");
        }
        authority.append(":");
        let port = i32_to_text(self.port);
        authority.append(port.as_str());
        assert(":"@ =~= seq![':']);
        assert(authority@ =~= remote_authority(self.host@, self.port));
        build_uri(self.protocol.as_str(), authority.as_str(), self.path.as_str())
    }
}

/// Where and with which headers a request is forwarded.
pub struct BareHeaderData {
    pub remote: BareRemote,
    pub headers: HeaderMap,
}

impl Default for BareHeaderData {
    fn default() -> (res: Self)
        ensures
            is_default_remote(res.remote),
            header_map_contents(res.headers) == no_headers(),
    {
        BareHeaderData { remote: BareRemote::default(), headers: header_map_new() }
    }
}

/// The text of header `name` in `headers` (see `header_lookup`).
pub open spec fn header_text(headers: HeaderMap, name: Seq<char>) -> Option<Seq<char>> {
    header_lookup(header_map_contents(headers), name)
}

/// The first value of header `name`, if it is present and visible ASCII.
pub fn get_header<'a>(headers: &'a HeaderMap, name: &str) -> (res: Option<&'a str>)
    ensures
        match res {
            Some(v) => header_text(*headers, name@) == Some(v@),
            None => header_text(*headers, name@) is None,
        },
{
    header_map_get_str(headers, name)
}

/// The four remote headers, each named `x-bare-` and the property, read in this order.
#[derive(PartialEq, Eq, Structural, Debug, Clone, Copy)]
pub enum RemoteHeader {
    Host,
    Port,
    Protocol,
    Path,
}

/// The property a remote header carries.
pub open spec fn remote_prop(which: RemoteHeader) -> Seq<char> {
    match which {
        RemoteHeader::Host => "host"@,
        RemoteHeader::Port => "port"@,
        RemoteHeader::Protocol => "protocol"@,
        RemoteHeader::Path => "path"@,
    }
}

/// The name of the header that carries a remote property.
pub open spec fn remote_header_name(which: RemoteHeader) -> Seq<char> {
    "x-bare-"@ + remote_prop(which)
}

/// The protocols a remote may use.
pub open spec fn is_bare_protocol(v: Seq<char>) -> bool {
    v == "http:"@ || v == "https:"@ || v == "ws:"@ || v == "wss:"@
}

/// The error for a header that is not there.
pub open spec fn missing_header_error(id: Seq<char>) -> ErrorText {
    ErrorText { code: "MISSING_BARE_HEADER"@, id: id, message: "Header was not specified."@ }
}

/// The error for an entry of `x-bare-headers` that is neither a string nor a list of strings.
pub open spec fn not_a_string_error() -> ErrorText {
    ErrorText {
        code: "INVALID_BARE_HEADER"@,
        id: "bare.headers.x-bare-headers"@,
        message: "Header was not a String."@,
    }
}

/// The error for JSON that is not of the expected shape (for both JSON headers
/// the id names `x-bare-forward-headers`).
pub open spec fn not_a_string_list_error() -> ErrorText {
    ErrorText {
        code: "INVALID_BARE_HEADER"@,
        id: "bare.headers.x-bare-forward-headers"@,
        message: "Header was not an array of Strings."@,
    }
}

/// What is wrong with one remote header, if anything: it is missing, the port
/// is not an `i32`, or the protocol is not one of `http:`, `https:`, `ws:`, `wss:`.
pub open spec fn remote_header_error(headers: HeaderMap, which: RemoteHeader) -> Option<ErrorText> {
    let name = remote_header_name(which);
    let id = "request.headers."@ + name;
    match header_text(headers, name) {
        None => Some(missing_header_error(id)),
        Some(v) => if which == RemoteHeader::Port && !parses_as_i32(v) {
            Some(ErrorText { code: "INVALID_BARE_HEADER"@, id: id, message: "Header was not a valid integer."@ })
        } else if which == RemoteHeader::Protocol && !is_bare_protocol(v) {
            Some(ErrorText { code: "INVALID_BARE_HEADER"@, id: id, message: "Header was invalid"@ })
        } else {
            None
        },
    }
}

/// The first thing wrong with the remote headers, in the order host, port,
/// protocol, path.
pub open spec fn remote_headers_error(headers: HeaderMap) -> Option<ErrorText> {
    if remote_header_error(headers, RemoteHeader::Host) is Some {
        remote_header_error(headers, RemoteHeader::Host)
    } else if remote_header_error(headers, RemoteHeader::Port) is Some {
        remote_header_error(headers, RemoteHeader::Port)
    } else if remote_header_error(headers, RemoteHeader::Protocol) is Some {
        remote_header_error(headers, RemoteHeader::Protocol)
    } else {
        remote_header_error(headers, RemoteHeader::Path)
    }
}

/// The contents of a header map after `name` is set to `value`.
pub open spec fn with_header(m: Map<Seq<char>, Seq<Seq<u8>>>, name: Seq<char>, value: Seq<char>) -> Map<Seq<char>, Seq<Seq<u8>>> {
    m.insert(header_name_key(name), seq![encode_utf8(value)])
}

/// `m` with one remote header copied from the request.
pub open spec fn with_remote_header(headers: HeaderMap, m: Map<Seq<char>, Seq<Seq<u8>>>, which: RemoteHeader) -> Map<Seq<char>, Seq<Seq<u8>>> {
    with_header(m, remote_header_name(which), header_text(headers, remote_header_name(which)).unwrap())
}

/// The forwarded headers once the four remote headers are copied.
pub open spec fn remote_headers(headers: HeaderMap) -> Map<Seq<char>, Seq<Seq<u8>>> {
    with_remote_header(headers, with_remote_header(headers, with_remote_header(headers,
        with_remote_header(headers, no_headers(), RemoteHeader::Host), RemoteHeader::Port),
        RemoteHeader::Protocol), RemoteHeader::Path)
}

/// Every item of a JSON list is a string.
pub open spec fn all_strings(items: Seq<Option<Seq<char>>>) -> bool {
    forall|i: int| 0 <= i < items.len() ==> (#[trigger] items[i]) is Some
}

/// The strings of a JSON list whose items are all strings.
pub open spec fn the_strings(items: Seq<Option<Seq<char>>>) -> Seq<Seq<char>> {
    items.map_values(|o: Option<Seq<char>>| o.unwrap())
}

/// The header value an entry of `x-bare-headers` sets: a string as it is, a
/// list of strings as its JSON text; `None` for anything else.
pub open spec fn entry_value(item: JsonItemView) -> Option<Seq<char>> {
    match item {
        JsonItemView::Text(s) => Some(s),
        JsonItemView::List(items) => if all_strings(items) {
            Some(json_string_list(the_strings(items)))
        } else {
            None
        },
        JsonItemView::Other => None,
    }
}

/// Applying the entries of `x-bare-headers` in order to `m`: each sets its
/// header; an entry that is neither a string nor a list of strings refuses the
/// request. `None` where an entry's name is not a header name or its value
/// not a header value before that: making that header panics.
pub open spec fn apply_entries(m: Map<Seq<char>, Seq<Seq<u8>>>, es: Seq<(Seq<char>, JsonItemView)>) -> Option<Result<Map<Seq<char>, Seq<Seq<u8>>>, ErrorText>>
    decreases es.len(),
{
    if es.len() == 0 {
        Some(Ok(m))
    } else {
        let name = es[0].0;
        match entry_value(es[0].1) {
            None => Some(Err(not_a_string_error())),
            Some(v) => if is_header_name(name) && is_header_value(encode_utf8(v)) {
                apply_entries(with_header(m, name, v), es.drop_first())
            } else {
                None
            },
        }
    }
}

/// The headers set by the entries before the first one that refuses the
/// request (all of them where none refuses).
pub open spec fn applied_until_refusal(m: Map<Seq<char>, Seq<Seq<u8>>>, es: Seq<(Seq<char>, JsonItemView)>) -> Map<Seq<char>, Seq<Seq<u8>>>
    decreases es.len(),
{
    if es.len() == 0 {
        m
    } else {
        match entry_value(es[0].1) {
            None => m,
            Some(v) => applied_until_refusal(with_header(m, es[0].0, v), es.drop_first()),
        }
    }
}

/// Copying each forwarded header named in `names` that the request carries.
pub open spec fn apply_forward(headers: HeaderMap, m: Map<Seq<char>, Seq<Seq<u8>>>, names: Seq<Option<Seq<char>>>) -> Map<Seq<char>, Seq<Seq<u8>>>
    decreases names.len(),
{
    if names.len() == 0 {
        m
    } else {
        let next = match names[0] {
            Some(n) => match header_text(headers, n) {
                Some(v) => with_header(m, n, v),
                None => m,
            },
            None => m,
        };
        apply_forward(headers, next, names.drop_first())
    }
}

/// The outcome of reading the bare headers of a request: the forwarded
/// headers, or the error the request is refused with; `None` where an entry of
/// `x-bare-headers` cannot be made a header: making that header panics.
pub open spec fn parse_outcome(headers: HeaderMap) -> Option<Result<Map<Seq<char>, Seq<Seq<u8>>>, ErrorText>> {
    if remote_headers_error(headers) is Some {
        Some(Err(remote_headers_error(headers).unwrap()))
    } else {
        match header_text(headers, "x-bare-headers"@) {
            None => Some(Err(missing_header_error("request.headers.x-bare-headers"@))),
            Some(v) => match json_object_entries(v) {
                None => Some(Err(not_a_string_list_error())),
                Some(es) => match apply_entries(remote_headers(headers), es) {
                    None => None,
                    Some(Err(e)) => Some(Err(e)),
                    Some(Ok(m)) => match header_text(headers, "x-bare-forward-headers"@) {
                        None => Some(Err(missing_header_error("request.headers.x-bare-forward-headers"@))),
                        Some(f) => match json_list_items(f) {
                            None => Some(Err(not_a_string_list_error())),
                            Some(names) => Some(Ok(apply_forward(headers, m, names))),
                        },
                    },
                },
            },
        }
    }
}

/// Makes a `BareError` from its parts.
fn bare_error(code: &str, id: String, message: &str) -> (e: BareError)
    ensures
        e@ == (ErrorText { code: code@, id: id@, message: message@ }),
{
    BareError { code: code.to_owned(), id: id, message: message.to_owned() }
}

/// The text of a literal as a `String`.
fn owned(s: &str) -> (res: String)
    ensures
        res@ == s@,
{
    s.to_owned()
}

/// Which property a remote header carries.
fn remote_prop_exec(which: RemoteHeader) -> (res: &'static str)
    ensures
        res@ == remote_prop(which),
{
    match which {
        RemoteHeader::Host => "host",
        RemoteHeader::Port => "port",
        RemoteHeader::Protocol => "protocol",
        RemoteHeader::Path => "path",
    }
}

/// The name of the header that carries a remote property.
fn remote_header_name_exec(which: RemoteHeader) -> (res: String)
    ensures
        res@ == remote_header_name(which),
{
    let mut name = owned("x-bare-");
    name.append(remote_prop_exec(which));
    name
}

/// Checks one remote header.
fn check_remote_header(headers: &HeaderMap, which: RemoteHeader) -> (res: Option<BareError>)
    ensures
        match res {
            Some(e) => remote_header_error(*headers, which) == Some(e@),
            None => remote_header_error(*headers, which) is None,
        },
{
    let name = remote_header_name_exec(which);
    match get_header(headers, name.as_str()) {
        None => {
            let mut id = owned("request.headers.");
            id.append(name.as_str());
            Some(bare_error("MISSING_BARE_HEADER", id, "Header was not specified."))
        },
        Some(value) => {
            if which == RemoteHeader::Port && !parses_as_i32_exec(value) {
                let mut id = owned("request.headers.");
                id.append(name.as_str());
                Some(bare_error("INVALID_BARE_HEADER", id, "Header was not a valid integer."))
            } else if which == RemoteHeader::Protocol && !(str_equal(value, "http:") || str_equal(
                value,
                "https:",
            ) || str_equal(value, "ws:") || str_equal(value, "wss:")) {
                let mut id = owned("request.headers.");
                id.append(name.as_str());
                Some(bare_error("INVALID_BARE_HEADER", id, "Header was invalid"))
            } else {
                None
            }
        },
    }
}

/// The first thing wrong with the remote headers, if anything.
fn check_remote_headers(headers: &HeaderMap) -> (res: Option<BareError>)
    ensures
        match res {
            Some(e) => remote_headers_error(*headers) == Some(e@),
            None => remote_headers_error(*headers) is None,
        },
{
    let e = check_remote_header(headers, RemoteHeader::Host);
    if e.is_some() {
        return e;
    }
    let e = check_remote_header(headers, RemoteHeader::Port);
    if e.is_some() {
        return e;
    }
    let e = check_remote_header(headers, RemoteHeader::Protocol);
    if e.is_some() {
        return e;
    }
    check_remote_header(headers, RemoteHeader::Path)
}

/// Text read from a header is a valid header value, and the name it was read
/// under is a valid header name.
proof fn lemma_read_header_is_valid(headers: HeaderMap, name: Seq<char>)
    requires
        header_text(headers, name) is Some,
    ensures
        is_header_name(name),
        is_header_value(encode_utf8(header_text(headers, name).unwrap())),
{
    broadcast use vstd::utf8::is_ascii_chars_encode_utf8;

    let contents = header_map_contents(headers);
    let b = contents[header_name_key(name)][0];
    let v = ascii_text(b);
    assert(is_visible_ascii(b));
    assert forall|i: int| 0 <= i < v.len() implies '\0' <= #[trigger] v[i] <= '\u{7f}' by {
        lemma_visible_ascii_byte_at(b, i);
    }
    assert(vstd::utf8::is_ascii_chars(v));
    let e = encode_utf8(v);
    assert forall|i: int| 0 <= i < e.len() implies #[trigger] is_header_value_byte(e[i]) by {
        assert(e[i] == v[i] as u8);
        lemma_visible_ascii_byte_at(b, i);
    }
}

/// The byte at `i` is visible ASCII, and so is its character.
proof fn lemma_visible_ascii_byte_at(b: Seq<u8>, i: int)
    requires
        is_visible_ascii(b),
        0 <= i < b.len(),
    ensures
        ascii_text(b)[i] as u32 == b[i] as u32,
        32 <= b[i] < 127 || b[i] == 9,
        (ascii_text(b)[i] as u8) == b[i],
{
    assert(is_visible_ascii_byte(b[i]));
}

/// Copies one remote header from the request into `out`.
fn copy_remote_header(headers: &HeaderMap, out: &mut HeaderMap, which: RemoteHeader)
    requires
        remote_header_error(*headers, which) is None,
    ensures
        header_map_contents(*final(out)) == with_remote_header(*headers, header_map_contents(*old(out)), which),
{
    let name = remote_header_name_exec(which);
    match get_header(headers, name.as_str()) {
        Some(value) => {
            proof {
                lemma_read_header_is_valid(*headers, name@);
            }
            let inserted = header_map_insert_str(out, name.as_str(), value);
            assert(inserted);
        },
        None => {},
    }
}

/// The header value an entry of `x-bare-headers` sets, if it sets one.
#[verifier::loop_isolation(false)]
fn entry_value_exec(item: &JsonItem) -> (res: Option<String>)
    ensures
        match res {
            Some(v) => entry_value(item@) == Some(v@),
            None => entry_value(item@) is None,
        },
{
    match item {
        JsonItem::Text(s) => Some(s.clone()),
        JsonItem::List(items) => {
            let mut strings: Vec<String> = Vec::new();
            let mut j: usize = 0;
            while j < items.len()
                invariant
                    j <= items.len(),
                    strings.deep_view() == the_strings(items.deep_view().take(j as int)),
                    forall|i: int| 0 <= i < j ==> (#[trigger] items.deep_view()[i]) is Some,
                decreases items.len() - j,
            {
                match &items[j] {
                    Some(s) => {
                        strings.push(s.clone());
                    },
                    None => {
                        assert(items.deep_view()[j as int] is None);
                        assert(!all_strings(items.deep_view()));
                        return None;
                    },
                }
                proof {
                    let dv = items.deep_view();
                    let next = the_strings(dv.take(j + 1));
                    assert(dv[j as int] is Some);
                    assert(strings@.len() == j + 1);
                    assert(dv.len() == items@.len());
                    assert(strings.deep_view().len() == next.len());
                    assert forall|i: int| 0 <= i < next.len() implies strings.deep_view()[i] == next[i] by {
                        if i < j {
                            assert(next[i] == the_strings(dv.take(j as int))[i]);
                        } else {
                            assert(next[i] == dv[j as int].unwrap());
                        }
                    }
                }
                assert(strings.deep_view() =~= the_strings(items.deep_view().take(j + 1)));
                j = j + 1;
            }
            assert(items.deep_view().take(j as int) =~= items.deep_view());
            Some(write_json_string_list(&strings))
        },
        JsonItem::Other => None,
    }
}

/// Whether applying the entries panics before it ends or refuses the request.
pub open spec fn entries_panic(es: Seq<(Seq<char>, JsonItemView)>) -> bool
    decreases es.len(),
{
    if es.len() == 0 {
        false
    } else {
        match entry_value(es[0].1) {
            None => false,
            Some(v) => if is_header_name(es[0].0) && is_header_value(encode_utf8(v)) {
                entries_panic(es.drop_first())
            } else {
                true
            },
        }
    }
}

/// Applying entries fails to give an outcome exactly where they panic,
/// whatever the map they are applied to.
pub proof fn lemma_apply_entries_panic(m: Map<Seq<char>, Seq<Seq<u8>>>, es: Seq<(Seq<char>, JsonItemView)>)
    ensures
        apply_entries(m, es) is None <==> entries_panic(es),
    decreases es.len(),
{
    if es.len() > 0 {
        match entry_value(es[0].1) {
            None => {},
            Some(v) => {
                lemma_apply_entries_panic(with_header(m, es[0].0, v), es.drop_first());
            },
        }
    }
}

/// Sets the headers that the entries of `x-bare-headers` name, in order: a
/// string as it is, a list of strings as its JSON text. An entry that is
/// neither refuses the request, after the entries before it were set.
pub fn apply_json_entries(out: &mut HeaderMap, entries: &Vec<(String, JsonItem)>) -> (res: Result<(), BareError>)
    requires
        apply_entries(header_map_contents(*old(out)), entries_view(entries@)) is Some,
    ensures
        match apply_entries(header_map_contents(*old(out)), entries_view(entries@)) {
            Some(Ok(m)) => res is Ok && header_map_contents(*final(out)) == m,
            Some(Err(e)) => res matches Err(x) && x@ == e
                && header_map_contents(*final(out)) == applied_until_refusal(header_map_contents(*old(out)), entries_view(entries@)),
            None => false,
        },
{
    let ghost m0 = header_map_contents(*out);
    let ghost ev = entries_view(entries@);
    assert(ev.skip(0) =~= ev);
    let mut k: usize = 0;
    while k < entries.len()
        invariant
            k <= entries.len(),
            ev == entries_view(entries@),
            ev.len() == entries@.len(),
            m0 == header_map_contents(*old(out)),
            apply_entries(m0, ev) == apply_entries(header_map_contents(*out), ev.skip(k as int)),
            applied_until_refusal(m0, ev) == applied_until_refusal(header_map_contents(*out), ev.skip(k as int)),
            apply_entries(m0, ev) is Some,
        decreases entries.len() - k,
    {
        let entry = &entries[k];
        let ghost rest = ev.skip(k as int);
        assert(rest[0] == ev[k as int]);
        assert(ev[k as int] == (entry.0@, entry.1@));
        assert(rest.drop_first() =~= ev.skip(k + 1));
        match entry_value_exec(&entry.1) {
            None => {
                return Err(bare_error("INVALID_BARE_HEADER", owned("bare.headers.x-bare-headers"), "Header was not a String."));
            },
            Some(value) => {
                let inserted = header_map_insert_str(out, entry.0.as_str(), value.as_str());
                assert(inserted);
            },
        }
        k = k + 1;
    }
    assert(ev.skip(k as int) =~= Seq::<(Seq<char>, JsonItemView)>::empty());
    Ok(())
}

/// Whether the entries of `x-bare-headers` would panic (see `entries_panic`);
/// each name and value is tried on a scratch map.
pub fn entries_would_panic(entries: &Vec<(String, JsonItem)>) -> (res: bool)
    ensures
        res == entries_panic(entries_view(entries@)),
{
    let ghost ev = entries_view(entries@);
    assert(ev.skip(0) =~= ev);
    let mut scratch = header_map_new();
    let mut k: usize = 0;
    while k < entries.len()
        invariant
            k <= entries.len(),
            ev == entries_view(entries@),
            ev.len() == entries@.len(),
            entries_panic(ev) == entries_panic(ev.skip(k as int)),
        decreases entries.len() - k,
    {
        let entry = &entries[k];
        let ghost rest = ev.skip(k as int);
        assert(rest[0] == ev[k as int]);
        assert(ev[k as int] == (entry.0@, entry.1@));
        assert(rest.drop_first() =~= ev.skip(k + 1));
        match entry_value_exec(&entry.1) {
            None => {
                return false;
            },
            Some(value) => {
                if !header_map_insert_str(&mut scratch, entry.0.as_str(), value.as_str()) {
                    return true;
                }
            },
        }
        k = k + 1;
    }
    false
}

/// Copies the request headers that `names` names, where the request carries them.
pub fn apply_forward_headers(headers: &HeaderMap, out: &mut HeaderMap, names: &Vec<Option<String>>)
    ensures
        header_map_contents(*final(out)) == apply_forward(*headers, header_map_contents(*old(out)), names.deep_view()),
{
    let ghost m0 = header_map_contents(*out);
    let ghost nv = names.deep_view();
    assert(nv.skip(0) =~= nv);
    let mut k: usize = 0;
    while k < names.len()
        invariant
            k <= names.len(),
            nv == names.deep_view(),
            apply_forward(*headers, m0, nv) == apply_forward(*headers, header_map_contents(*out), nv.skip(k as int)),
        decreases names.len() - k,
    {
        let ghost rest = nv.skip(k as int);
        assert(rest[0] == nv[k as int]);
        assert(rest.drop_first() =~= nv.skip(k + 1));
        match &names[k] {
            Some(name) => match get_header(headers, name.as_str()) {
                Some(value) => {
                    proof {
                        lemma_read_header_is_valid(*headers, name@);
                    }
                    let inserted = header_map_insert_str(out, name.as_str(), value);
                    assert(inserted);
                },
                None => {},
            },
            None => {},
        }
        k = k + 1;
    }
    assert(nv.skip(k as int) =~= Seq::<Option<Seq<char>>>::empty());
}

/// Reads the bare headers of a request: checks the four remote headers, then
/// sets the headers that `x-bare-headers` names and copies those that
/// `x-bare-forward-headers` names. The remote itself is left at its default.
pub fn parse_headers(headers: &HeaderMap) -> (res: Result<BareHeaderData, BareError>)
    requires
        parse_outcome(*headers) is Some,
    ensures
        match parse_outcome(*headers) {
            Some(Ok(m)) => res matches Ok(d) && is_default_remote(d.remote) && header_map_contents(d.headers) == m,
            Some(Err(e)) => res matches Err(x) && x@ == e,
            None => false,
        },
{
    let mut remote = BareHeaderData::default();
    if let Some(e) = check_remote_headers(headers) {
        return Err(e);
    }
    copy_remote_header(headers, &mut remote.headers, RemoteHeader::Host);
    copy_remote_header(headers, &mut remote.headers, RemoteHeader::Port);
    copy_remote_header(headers, &mut remote.headers, RemoteHeader::Protocol);
    copy_remote_header(headers, &mut remote.headers, RemoteHeader::Path);
    assert(header_map_contents(remote.headers) == remote_headers(*headers));
    match get_header(headers, "x-bare-headers") {
        None => {
            return Err(bare_error("MISSING_BARE_HEADER", owned("request.headers.x-bare-headers"), "Header was not specified."));
        },
        Some(value) => match parse_json_object(value) {
            None => {
                return Err(bare_error("INVALID_BARE_HEADER", owned("bare.headers.x-bare-forward-headers"), "Header was not an array of Strings."));
            },
            Some(entries) => {
                if let Err(e) = apply_json_entries(&mut remote.headers, &entries) {
                    return Err(e);
                }
            },
        },
    }
    match get_header(headers, "x-bare-forward-headers") {
        None => {
            return Err(bare_error("MISSING_BARE_HEADER", owned("request.headers.x-bare-forward-headers"), "Header was not specified."));
        },
        Some(value) => match parse_json_list(value) {
            None => {
                return Err(bare_error("INVALID_BARE_HEADER", owned("bare.headers.x-bare-forward-headers"), "Header was not an array of Strings."));
            },
            Some(names) => {
                apply_forward_headers(headers, &mut remote.headers, &names);
            },
        },
    }
    Ok(remote)
}

/// Whether reading the bare headers of this request would panic.
fn parse_headers_would_panic(headers: &HeaderMap) -> (res: bool)
    ensures
        res == (parse_outcome(*headers) is None),
{
    if check_remote_headers(headers).is_some() {
        return false;
    }
    match get_header(headers, "x-bare-headers") {
        None => false,
        Some(value) => match parse_json_object(value) {
            None => false,
            Some(entries) => {
                proof {
                    lemma_apply_entries_panic(remote_headers(*headers), entries_view(entries@));
                }
                entries_would_panic(&entries)
            },
        },
    }
}

/// `parse_headers` for every request: `None` where reading its bare headers
/// panics (an entry of `x-bare-headers` whose name is not a header name or
/// whose value is not a header value), else what `parse_headers` gives.
pub fn parse_headers_checked(headers: &HeaderMap) -> (res: Option<Result<BareHeaderData, BareError>>)
    ensures
        res is None <==> parse_outcome(*headers) is None,
        match parse_outcome(*headers) {
            Some(Ok(m)) => res matches Some(Ok(d)) && is_default_remote(d.remote) && header_map_contents(d.headers) == m,
            Some(Err(e)) => res matches Some(Err(x)) && x@ == e,
            None => true,
        },
{
    if parse_headers_would_panic(headers) {
        None
    } else {
        Some(parse_headers(headers))
    }
}

/// The only error applying entries gives is `not_a_string_error`.
proof fn lemma_apply_entries_error(m: Map<Seq<char>, Seq<Seq<u8>>>, es: Seq<(Seq<char>, JsonItemView)>)
    ensures
        apply_entries(m, es) matches Some(Err(e)) ==> e == not_a_string_error(),
    decreases es.len(),
{
    if es.len() > 0 {
        match entry_value(es[0].1) {
            None => {},
            Some(v) => {
                lemma_apply_entries_error(with_header(m, es[0].0, v), es.drop_first());
            },
        }
    }
}

/// Law: every request that reading the bare headers refuses is answered with
/// 400 Bad Request (never with a code that answering panics on).
pub proof fn lemma_refusals_are_bad_requests(headers: HeaderMap)
    ensures
        parse_outcome(headers) matches Some(Err(e)) ==> status_of_code(e.code) == Some(ErrorStatus::BadRequest),
{
    lemma_refusal_code_statuses();
    if remote_headers_error(headers) is None {
        if let Some(v) = header_text(headers, "x-bare-headers"@) {
            if let Some(es) = json_object_entries(v) {
                lemma_apply_entries_error(remote_headers(headers), es);
            }
        }
    }
}

/// Law: a header read back from a map in which it was just set gives the text
/// that was set, when that text is visible ASCII.
pub proof fn lemma_set_header_reads_back(m: Map<Seq<char>, Seq<Seq<u8>>>, name: Seq<char>, value: Seq<char>)
    requires
        is_header_name(name),
        is_visible_ascii(encode_utf8(value)),
    ensures
        header_lookup(with_header(m, name, value), name) == Some(value),
{
    broadcast use vstd::utf8::encode_utf8_decode_utf8;

    let b = encode_utf8(value);
    assert forall|i: int| 0 <= i < b.len() implies b[i] < 128 by {
        assert(is_visible_ascii_byte(b[i]));
    }
    lemma_ascii_bytes_text(b);
    assert(vstd::utf8::decode_utf8(encode_utf8(value)) == value);
}

/// Bytes below 128 are valid UTF-8 and decode to the characters `ascii_text` gives.
proof fn lemma_ascii_bytes_text(b: Seq<u8>)
    requires
        forall|i: int| 0 <= i < b.len() ==> b[i] < 128,
    ensures
        encode_utf8(ascii_text(b)) == b,
        vstd::utf8::decode_utf8(b) == ascii_text(b),
{
    broadcast use vstd::utf8::is_ascii_chars_encode_utf8, vstd::utf8::encode_utf8_decode_utf8;

    let t = ascii_text(b);
    assert forall|i: int| 0 <= i < t.len() implies '\0' <= #[trigger] t[i] <= '\u{7f}' by {
        assert(t[i] == b[i] as char);
    }
    assert(vstd::utf8::is_ascii_chars(t));
    assert(encode_utf8(t).len() == b.len());
    assert forall|i: int| 0 <= i < b.len() implies encode_utf8(t)[i] == b[i] by {
        assert(encode_utf8(t)[i] == t[i] as u8);
    }
    assert(encode_utf8(t) =~= b);
}

/// Copying the forwarded headers keeps, for every name the request carries
/// that was copied before, the request's text under that name.
proof fn lemma_forward_keeps(headers: HeaderMap, m: Map<Seq<char>, Seq<Seq<u8>>>, names: Seq<Option<Seq<char>>>, n: Seq<char>)
    requires
        header_text(headers, n) is Some,
        header_lookup(m, n) == header_text(headers, n),
    ensures
        header_lookup(apply_forward(headers, m, names), n) == header_text(headers, n),
    decreases names.len(),
{
    if names.len() > 0 {
        let next = match names[0] {
            Some(x) => match header_text(headers, x) {
                Some(v) => with_header(m, x, v),
                None => m,
            },
            None => m,
        };
        if let Some(x) = names[0] {
            if let Some(v) = header_text(headers, x) {
                lemma_read_header_is_valid(headers, x);
                lemma_read_header_visible(headers, x);
                if header_name_key(x) == header_name_key(n) {
                    lemma_same_key_same_text(headers, x, n);
                    lemma_set_header_reads_back(m, x, v);
                    assert(header_lookup(next, n) == header_lookup(next, x));
                }
            }
        }
        lemma_forward_keeps(headers, next, names.drop_first(), n);
    }
}

/// Two names with the same key read the same header.
proof fn lemma_same_key_same_text(headers: HeaderMap, a: Seq<char>, b: Seq<char>)
    requires
        header_text(headers, a) is Some,
        header_text(headers, b) is Some,
        header_name_key(a) == header_name_key(b),
    ensures
        header_text(headers, a) == header_text(headers, b),
{
}

/// Text read from a header is visible ASCII in UTF-8.
proof fn lemma_read_header_visible(headers: HeaderMap, name: Seq<char>)
    requires
        header_text(headers, name) is Some,
    ensures
        is_visible_ascii(encode_utf8(header_text(headers, name).unwrap())),
{
    let contents = header_map_contents(headers);
    let b = contents[header_name_key(name)][0];
    assert forall|i: int| 0 <= i < b.len() implies b[i] < 128 by {
        assert(is_visible_ascii_byte(b[i]));
    }
    lemma_ascii_bytes_text(b);
}

/// Law: once the bare headers are read, every header that
/// `x-bare-forward-headers` names and the request carries is forwarded with
/// the request's text.
pub proof fn lemma_forwarded_headers_carry_request_text(
    headers: HeaderMap,
    m: Map<Seq<char>, Seq<Seq<u8>>>,
    names: Seq<Option<Seq<char>>>,
    i: int,
)
    requires
        0 <= i < names.len(),
        names[i] is Some,
        header_text(headers, names[i].unwrap()) is Some,
    ensures
        header_lookup(apply_forward(headers, m, names), names[i].unwrap())
            == header_text(headers, names[i].unwrap()),
    decreases names.len(),
{
    let n = names[i].unwrap();
    let next = match names[0] {
        Some(x) => match header_text(headers, x) {
            Some(v) => with_header(m, x, v),
            None => m,
        },
        None => m,
    };
    if i == 0 {
        let v = header_text(headers, n).unwrap();
        lemma_read_header_is_valid(headers, n);
        lemma_read_header_visible(headers, n);
        lemma_set_header_reads_back(m, n, v);
        lemma_forward_keeps(headers, next, names.drop_first(), n);
    } else {
        assert(names.drop_first()[i - 1] == names[i]);
        lemma_forwarded_headers_carry_request_text(headers, next, names.drop_first(), i - 1);
    }
}

} // verus!
