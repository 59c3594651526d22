//! The JSON that the bare headers carry, read and written by `serde_json`
//! behind trusted items. The library looks at a JSON value only as far as the
//! rules need: whether it is a string, a list whose items are strings or not,
//! or anything else.

use std::collections::HashMap;

use serde_json::{Map as JsonMap, Value};
use vstd::prelude::*;

use crate::text::hex_digit_lower;

verus! {

/// A JSON value as the header rules see it.
pub enum JsonItem {
    /// A string.
    Text(String),
    /// A list; each item is its string, or `None` where it is not a string.
    List(Vec<Option<String>>),
    /// Any other value.
    Other,
}

/// The mathematical form of a `JsonItem`.
pub enum JsonItemView {
    Text(Seq<char>),
    List(Seq<Option<Seq<char>>>),
    Other,
}

impl View for JsonItem {
    type V = JsonItemView;

    open spec fn view(&self) -> JsonItemView {
        match self {
            JsonItem::Text(s) => JsonItemView::Text(s@),
            JsonItem::List(items) => JsonItemView::List(items.deep_view()),
            JsonItem::Other => JsonItemView::Other,
        }
    }
}

/// The mathematical form of the entries of a JSON object.
pub open spec fn entries_view(entries: Seq<(String, JsonItem)>) -> Seq<(Seq<char>, JsonItemView)> {
    entries.map_values(|e: (String, JsonItem)| (e.0@, e.1@))
}

/// The entries, in the order the parsed map yields them, of the JSON object
/// written in `text`; `None` where `text` is not a JSON object.
pub uninterp spec fn json_object_entries(text: Seq<char>) -> Option<Seq<(Seq<char>, JsonItemView)>>;

/// The items of the JSON list written in `text`, each its string or `None`
/// where it is not a string; `None` where `text` is not a JSON list.
pub uninterp spec fn json_list_items(text: Seq<char>) -> Option<Seq<Option<Seq<char>>>>;

/// `serde_json::from_str::<Map<String, Value>>`: the entries of the JSON
/// object in `text`, with each value seen as a `JsonItem`.
#[verifier::external_body]
pub(crate) fn parse_json_object(text: &str) -> (res: Option<Vec<(String, JsonItem)>>)
    ensures
        json_object_entries(text@) == match res {
            Some(v) => Some(entries_view(v@)),
            None => None,
        },
{
    let map: JsonMap<String, Value> = serde_json::from_str(text).ok()?;
    Some(map.into_iter().map(|(k, v)| (k, match v {
        Value::String(s) => JsonItem::Text(s),
        Value::Array(items) => JsonItem::List(items.into_iter().map(|item| match item {
            Value::String(s) => Some(s),
            _ => None,
        }).collect()),
        _ => JsonItem::Other,
    })).collect())
}

/// `serde_json::from_str::<Vec<Value>>`: the items of the JSON list in
/// `text`, each its string or `None` where it is not a string.
#[verifier::external_body]
pub(crate) fn parse_json_list(text: &str) -> (res: Option<Vec<Option<String>>>)
    ensures
        json_list_items(text@) == match res {
            Some(v) => Some(v.deep_view()),
            None => None,
        },
{
    let items: Vec<Value> = serde_json::from_str(text).ok()?;
    Some(items.into_iter().map(|item| match item {
        Value::String(s) => Some(s),
        _ => None,
    }).collect())
}

/// How `serde_json` writes one character inside a string: `"` and `\` after a
/// backslash, the control characters with a short escape or as `\u00` and two
/// lower-case hexadecimal digits, everything else as itself.
pub open spec fn json_escape_char(c: char) -> Seq<char> {
    if c == '"' {
        seq!['\\', '"']
    } else if c == '\\' {
        seq!['\\', '\\']
    } else if c == '\u{8}' {
        seq!['\\', 'b']
    } else if c == '\t' {
        seq!['\\', 't']
    } else if c == '\n' {
        seq!['\\', 'n']
    } else if c == '\u{c}' {
        seq!['\\', 'f']
    } else if c == '\r' {
        seq!['\\', 'r']
    } else if (c as u32) < 0x20 {
        seq!['\\', 'u', '0', '0', hex_digit_lower((c as u32 / 16) as nat), hex_digit_lower((c as u32 % 16) as nat)]
    } else {
        seq![c]
    }
}

/// The escaped contents of a JSON string.
pub open spec fn json_escaped(s: Seq<char>) -> Seq<char>
    decreases s.len(),
{
    if s.len() == 0 {
        seq![]
    } else {
        json_escaped(s.drop_last()) + json_escape_char(s.last())
    }
}

/// A JSON string literal.
pub open spec fn json_string(s: Seq<char>) -> Seq<char> {
    seq!['"'] + json_escaped(s) + seq!['"']
}

/// The string literals of `items`, separated by commas.
pub open spec fn json_string_items(items: Seq<Seq<char>>) -> Seq<char>
    decreases items.len(),
{
    if items.len() == 0 {
        seq![]
    } else if items.len() == 1 {
        json_string(items[0])
    } else {
        json_string_items(items.drop_last()) + seq![','] + json_string(items.last())
    }
}

/// The compact JSON text of a list of strings.
pub open spec fn json_string_list(items: Seq<Seq<char>>) -> Seq<char> {
    seq!['['] + json_string_items(items) + seq![']']
}

/// `serde_json::to_string` of a list of strings: its compact JSON text.
#[verifier::external_body]
pub(crate) fn write_json_string_list(items: &Vec<String>) -> (res: String)
    ensures
        res@ == json_string_list(items.deep_view()),
{
    serde_json::to_string(items).unwrap()
}

/// The name-value pairs of a list of string pairs, as texts.
pub open spec fn pairs_view(pairs: Seq<(String, String)>) -> Seq<(Seq<char>, Seq<char>)> {
    pairs.map_values(|p: (String, String)| (p.0@, p.1@))
}

/// No two pairs have the same name.
pub open spec fn distinct_names(es: Seq<(Seq<char>, Seq<char>)>) -> bool {
    forall|i: int, j: int| 0 <= i < j < es.len() ==> es[i].0 != es[j].0
}

/// `a` holds the same pairs as `b`, each once, in some order.
pub open spec fn same_pairs(a: Seq<(Seq<char>, Seq<char>)>, b: Seq<(Seq<char>, Seq<char>)>) -> bool {
    &&& a.len() == b.len()
    &&& distinct_names(a)
    &&& forall|i: int| 0 <= i < a.len() ==> exists|j: int| 0 <= j < b.len() && #[trigger] a[i] == b[j]
    &&& forall|j: int| 0 <= j < b.len() ==> exists|i: int| 0 <= i < a.len() && a[i] == #[trigger] b[j]
}

/// The members of a compact JSON object whose values are strings, separated by commas.
pub open spec fn json_object_members(es: Seq<(Seq<char>, Seq<char>)>) -> Seq<char>
    decreases es.len(),
{
    if es.len() == 0 {
        seq![]
    } else if es.len() == 1 {
        json_string(es[0].0) + seq![':'] + json_string(es[0].1)
    } else {
        json_object_members(es.drop_last()) + seq![','] + json_string(es.last().0) + seq![':']
            + json_string(es.last().1)
    }
}

/// The compact JSON text of an object whose values are strings, its members in the order of `es`.
pub open spec fn json_string_object(es: Seq<(Seq<char>, Seq<char>)>) -> Seq<char> {
    seq!['{'] + json_object_members(es) + seq!['}']
}

/// `text` is the compact JSON object of the pairs of `pairs`, in some order.
pub open spec fn is_json_object_of(text: Seq<char>, pairs: Seq<(Seq<char>, Seq<char>)>) -> bool {
    exists|es: Seq<(Seq<char>, Seq<char>)>| same_pairs(es, pairs) && text == #[trigger] json_string_object(es)
}

/// `es`, the entries read from a JSON object, are the pairs `pairs` with
/// string values, each name once, in some order.
pub open spec fn same_text_entries(es: Seq<(Seq<char>, JsonItemView)>, pairs: Seq<(Seq<char>, Seq<char>)>) -> bool {
    &&& es.len() == pairs.len()
    &&& forall|i: int, j: int| 0 <= i < j < es.len() ==> es[i].0 != es[j].0
    &&& forall|i: int| #![trigger es[i]] 0 <= i < es.len() ==> exists|j: int|
        #![trigger pairs[j]] 0 <= j < pairs.len() && es[i].0 == pairs[j].0 && es[i].1 == JsonItemView::Text(pairs[j].1)
    &&& forall|j: int| #![trigger pairs[j]] 0 <= j < pairs.len() ==> exists|i: int|
        #![trigger es[i]] 0 <= i < es.len() && es[i].0 == pairs[j].0 && es[i].1 == JsonItemView::Text(pairs[j].1)
}

/// `serde_json::to_string` of the `HashMap<String, String>` that holds these
/// pairs: its compact JSON text, with the pairs in the order the map yields
/// them, which depends on the map's random hasher and is not stated. Parsing
/// that text as a JSON object gives back the same pairs.
#[verifier::external_body]
pub(crate) fn write_json_string_map(pairs: &Vec<(String, String)>) -> (res: String)
    requires
        distinct_names(pairs_view(pairs@)),
    ensures
        is_json_object_of(res@, pairs_view(pairs@)),
        json_object_entries(res@) is Some,
        same_text_entries(json_object_entries(res@)->0, pairs_view(pairs@)),
{
    let map: HashMap<String, String> = pairs.iter().cloned().collect();
    serde_json::to_string(&map).unwrap()
}

} // verus!
