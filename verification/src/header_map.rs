//! actix's `HeaderMap`, the multi-map of HTTP headers that requests carry and
//! that the proxied request is built from, held behind trusted items.
//!
//! Its contents are named by [`header_map_contents`]: each header name, in the
//! lower case to which `HeaderName` normalizes it, with the bytes of its values
//! in the order they were added.

use std::str::FromStr;

use actix_http::header::{HeaderMap, HeaderName, HeaderValue};
use vstd::prelude::*;
use vstd::utf8::encode_utf8;

verus! {

/// actix's `HeaderMap`, held as an opaque value; what it holds is
/// `header_map_contents`.
#[verifier::external_type_specification]
#[verifier::external_body]
pub struct ExHeaderMap(HeaderMap);

/// What a header map holds: each lower-case header name with its values, as
/// bytes, in the order they were added.
pub uninterp spec fn header_map_contents(m: HeaderMap) -> Map<Seq<char>, Seq<Seq<u8>>>;

/// The contents of an empty header map.
pub open spec fn no_headers() -> Map<Seq<char>, Seq<Seq<u8>>> {
    Map::empty()
}

/// A character that `HeaderName` accepts in a header name (upper-case letters
/// are accepted and made lower case).
pub open spec fn is_header_name_char(c: char) -> bool {
    ||| c == '!'
    ||| c == '"'
    ||| c == '#'
    ||| c == '$'
    ||| c == '%'
    ||| c == '&'
    ||| c == '\''
    ||| c == '*'
    ||| c == '+'
    ||| c == '-'
    ||| c == '.'
    ||| ('0' <= c && c <= '9')
    ||| ('A' <= c && c <= 'Z')
    ||| c == '^'
    ||| c == '_'
    ||| c == '`'
    ||| ('a' <= c && c <= 'z')
    ||| c == '|'
    ||| c == '~'
}

/// Text that `HeaderName::from_str` accepts: one to 65535 header-name characters.
pub open spec fn is_header_name(s: Seq<char>) -> bool {
    &&& 1 <= s.len() <= 65535
    &&& forall|i: int| 0 <= i < s.len() ==> #[trigger] is_header_name_char(s[i])
}

/// The lower-case form of an ASCII letter; other characters stay.
pub open spec fn ascii_lower(c: char) -> char {
    if 'A' <= c && c <= 'Z' {
        ((c as u32) + 32) as char
    } else {
        c
    }
}

/// The key under which a header name is stored: its lower-case form.
pub open spec fn header_name_key(s: Seq<char>) -> Seq<char> {
    s.map_values(|c: char| ascii_lower(c))
}

/// A byte that `HeaderValue::from_str` accepts: tab, or 32 and above but for 127.
pub open spec fn is_header_value_byte(b: u8) -> bool {
    (b >= 32 && b != 127) || b == 9
}

/// Bytes that `HeaderValue::from_str` accepts.
pub open spec fn is_header_value(bytes: Seq<u8>) -> bool {
    forall|i: int| 0 <= i < bytes.len() ==> #[trigger] is_header_value_byte(bytes[i])
}

/// A byte that `HeaderValue::to_str` accepts: tab, or visible ASCII (32 to 126).
pub open spec fn is_visible_ascii_byte(b: u8) -> bool {
    (b >= 32 && b < 127) || b == 9
}

/// Bytes that `HeaderValue::to_str` accepts.
pub open spec fn is_visible_ascii(bytes: Seq<u8>) -> bool {
    forall|i: int| 0 <= i < bytes.len() ==> #[trigger] is_visible_ascii_byte(bytes[i])
}

/// The characters of visible-ASCII bytes.
pub open spec fn ascii_text(bytes: Seq<u8>) -> Seq<char> {
    bytes.map_values(|b: u8| b as char)
}

/// What `map.get(name)` followed by `to_str()` gives: the first value of the
/// header, as text, when `name` is a valid header name, the header is present
/// and its first value is visible ASCII.
pub open spec fn header_lookup(contents: Map<Seq<char>, Seq<Seq<u8>>>, name: Seq<char>) -> Option<Seq<char>> {
    let key = header_name_key(name);
    if is_header_name(name) && contents.contains_key(key) && contents[key].len() > 0
        && is_visible_ascii(contents[key][0]) {
        Some(ascii_text(contents[key][0]))
    } else {
        None
    }
}

/// `HeaderMap::new`: an empty map.
#[verifier::external_body]
pub(crate) fn header_map_new() -> (res: HeaderMap)
    ensures
        header_map_contents(res) == no_headers(),
{
    HeaderMap::new()
}

/// `HeaderMap::get` with a `&str` name, then `HeaderValue::to_str`: the first
/// value stored under the normalized name, as text, if the name is valid, the
/// header is present and that value is visible ASCII (see `header_lookup`).
#[verifier::external_body]
pub(crate) fn header_map_get_str<'a>(m: &'a HeaderMap, name: &str) -> (res: Option<&'a str>)
    ensures
        match res {
            Some(v) => header_lookup(header_map_contents(*m), name@) == Some(v@),
            None => header_lookup(header_map_contents(*m), name@) is None,
        },
{
    m.get(name).and_then(|v| v.to_str().ok())
}

/// `HeaderMap::insert` of `HeaderName::from_str(name)` and
/// `HeaderValue::from_str(value)`: when both parse, the values stored under
/// the normalized name are replaced by the bytes of `value`; otherwise the map
/// is left as it was. Tells whether both parsed.
#[verifier::external_body]
pub(crate) fn header_map_insert_str(m: &mut HeaderMap, name: &str, value: &str) -> (inserted: bool)
    ensures
        inserted == (is_header_name(name@) && is_header_value(encode_utf8(value@))),
        inserted ==> header_map_contents(*final(m)) == header_map_contents(*old(m)).insert(
            header_name_key(name@),
            seq![encode_utf8(value@)],
        ),
        !inserted ==> header_map_contents(*final(m)) == header_map_contents(*old(m)),
{
    match (HeaderName::from_str(name), HeaderValue::from_str(value)) {
        (Ok(n), Ok(v)) => {
            m.insert(n, v);
            true
        },
        _ => false,
    }
}

} // verus!
