//! The JSON that the chat API exchanges: a plain tree of what an answer is read
//! from, the lookups that read it, and the two places where `serde_json` does
//! the work (quoting a string, checking that bytes hold one JSON value).
use vstd::prelude::*;
use crate::text::{chars_eq, chars_of};

verus! {

/// A JSON value as the chat protocol reads it. Numbers are kept only as such:
/// nothing in the protocol reads their value.
pub enum JsonValue {
    Null,
    Bool(bool),
    Number,
    Str(String),
    Array(Vec<JsonValue>),
    /// Members as `serde_json`'s map holds them: sorted by key, a key that the
    /// document repeats kept once with its last value. A lookup takes the first
    /// member with the key, the only one in a document read by `read_json`.
    Object(Vec<(String, JsonValue)>),
}

/// The value of the first member at or after position `i` whose key is `key`.
pub open spec fn member_from(entries: Seq<(String, JsonValue)>, key: Seq<char>, i: int) -> Option<
    JsonValue,
>
    decreases entries.len() - i,
{
    if i < 0 || i >= entries.len() {
        None
    } else if entries[i].0@ == key {
        Some(entries[i].1)
    } else {
        member_from(entries, key, i + 1)
    }
}

/// `value[key]`: the member's value when `v` is an object that has it, nothing
/// otherwise (`serde_json` gives `Null` there, which no reader below tells apart).
pub open spec fn member(v: Option<JsonValue>, key: Seq<char>) -> Option<JsonValue> {
    match v {
        Some(JsonValue::Object(m)) => member_from(m@, key, 0),
        _ => None,
    }
}

/// `value[i]`: the element when `v` is an array long enough, nothing otherwise.
pub open spec fn element(v: Option<JsonValue>, i: int) -> Option<JsonValue> {
    match v {
        Some(JsonValue::Array(a)) => if 0 <= i < a@.len() {
            Some(a@[i])
        } else {
            None
        },
        _ => None,
    }
}

/// `value.as_str()`.
pub open spec fn string_of(v: Option<JsonValue>) -> Option<Seq<char>> {
    match v {
        Some(JsonValue::Str(s)) => Some(s@),
        _ => None,
    }
}

/// `value.as_array()`.
pub open spec fn array_of(v: Option<JsonValue>) -> Option<Seq<JsonValue>> {
    match v {
        Some(JsonValue::Array(a)) => Some(a@),
        _ => None,
    }
}

pub open spec fn deref_opt(v: Option<&JsonValue>) -> Option<JsonValue> {
    match v {
        Some(x) => Some(*x),
        None => None,
    }
}

#[verifier::loop_isolation(false)]
pub fn get_member<'a>(v: Option<&'a JsonValue>, key: &str) -> (r: Option<&'a JsonValue>)
    ensures
        deref_opt(r) == member(deref_opt(v), key@),
{
    let k = chars_of(key);
    match v {
        Some(JsonValue::Object(m)) => {
            let mut i: usize = 0;
            while i < m.len()
                invariant
                    i <= m@.len(),
                    k@ == key@,
                    member_from(m@, key@, 0) == member_from(m@, key@, i as int),
                decreases m@.len() - i,
            {
                let name = chars_of(m[i].0.as_str());
                if chars_eq(name.as_slice(), k.as_slice()) {
                    return Some(&m[i].1);
                }
                i = i + 1;
            }
            None
        },
        _ => None,
    }
}

pub fn get_element<'a>(v: Option<&'a JsonValue>, i: usize) -> (r: Option<&'a JsonValue>)
    ensures
        deref_opt(r) == element(deref_opt(v), i as int),
{
    match v {
        Some(JsonValue::Array(a)) => if i < a.len() {
            Some(&a[i])
        } else {
            None
        },
        _ => None,
    }
}

pub fn get_str<'a>(v: Option<&'a JsonValue>) -> (r: Option<&'a String>)
    ensures
        r matches Some(s) ==> string_of(deref_opt(v)) == Some(s@),
        r is None ==> string_of(deref_opt(v)) is None,
{
    match v {
        Some(JsonValue::Str(s)) => Some(s),
        _ => None,
    }
}

pub fn get_array<'a>(v: Option<&'a JsonValue>) -> (r: Option<&'a Vec<JsonValue>>)
    ensures
        r matches Some(a) ==> array_of(deref_opt(v)) == Some(a@),
        r is None ==> array_of(deref_opt(v)) is None,
{
    match v {
        Some(JsonValue::Array(a)) => Some(a),
        _ => None,
    }
}

/// The lowercase hexadecimal digit for `d < 16`.
pub open spec fn hex_lower(d: nat) -> char {
    if d < 10 {
        (48 + d) as char
    } else {
        (87 + d) as char
    }
}

/// How a JSON string writes the character `c`: `"` and `\` behind a backslash,
/// backspace, tab, line feed, form feed and carriage return as `\b \t \n \f \r`,
/// every other character below U+0020 as `\u00` and two lowercase hex digits,
/// anything else as itself.
pub open spec fn json_escape(c: char) -> Seq<char> {
    let u = c as u32;
    if c == '"' {
        seq!['\\', '"']
    } else if c == '\\' {
        seq!['\\', '\\']
    } else if u == 0x08 {
        seq!['\\', 'b']
    } else if u == 0x09 {
        seq!['\\', 't']
    } else if u == 0x0a {
        seq!['\\', 'n']
    } else if u == 0x0c {
        seq!['\\', 'f']
    } else if u == 0x0d {
        seq!['\\', 'r']
    } else if u < 0x20 {
        seq!['\\', 'u', '0', '0', hex_lower((u / 16) as nat), hex_lower((u % 16) as nat)]
    } else {
        seq![c]
    }
}

/// The characters of `s`, each written as a JSON string writes it.
pub open spec fn json_escaped(s: Seq<char>) -> Seq<char>
    decreases s.len(),
{
    if s.len() == 0 {
        Seq::empty()
    } else {
        json_escaped(s.drop_last()) + json_escape(s.last())
    }
}

/// The JSON string literal for `s`, as `serde_json::to_string` writes it:
/// escaped and between double quotes.
pub open spec fn json_string_literal(s: Seq<char>) -> Seq<char> {
    seq!['"'] + json_escaped(s) + seq!['"']
}

/// `serde_json::to_string` on a `str`: the string between double quotes, with
/// `"`, `\` and the characters below U+0020 escaped as its `ESCAPE` table and
/// `write_char_escape` do (`json_escape`). Serializing a `str` into a `Vec`
/// never fails in `serde_json`'s source, so the empty fallback is not reached.
#[verifier::external_body]
pub(crate) fn quote_json(s: &str) -> (r: String)
    ensures
        r@ == json_string_literal(s@),
{
    serde_json::to_string(s).unwrap_or_default()
}

/// `serde_json`'s own JSON value, carried from the parse to its conversion.
#[verifier::external_type_specification]
#[verifier::external_body]
pub struct ExValue(serde_json::Value);

/// What `serde_json::from_slice::<serde_json::Value>` reads the bytes `b` as,
/// converted to a `JsonValue` tree; nothing when they are not one JSON value.
pub uninterp spec fn json_document(b: Seq<u8>) -> Option<JsonValue>;

/// Converts `serde_json`'s value to the library's tree, one variant for one.
#[verifier::external_body]
fn value_tree(v: serde_json::Value) -> JsonValue {
    match v {
        serde_json::Value::Null => JsonValue::Null,
        serde_json::Value::Bool(b) => JsonValue::Bool(b),
        serde_json::Value::Number(_) => JsonValue::Number,
        serde_json::Value::String(t) => JsonValue::Str(t),
        serde_json::Value::Array(a) => JsonValue::Array(a.into_iter().map(value_tree).collect()),
        serde_json::Value::Object(m) => JsonValue::Object(m.into_iter().map(|(k, x)| (k, value_tree(x))).collect()),
    }
}

/// `serde_json::from_slice::<serde_json::Value>` on the bytes `b`, converted to a
/// `JsonValue`: the document when `b` holds one JSON value, nothing otherwise.
/// The JSON grammar is `serde_json`'s own and is not restated here; the result
/// is the one named `json_document`, and it is there exactly when `json_parses`.
#[verifier::external_body]
pub(crate) fn read_json(b: &[u8]) -> (r: Option<JsonValue>)
    ensures
        r == json_document(b@),
        r is Some <==> json_parses(b@),
{
    serde_json::from_slice::<serde_json::Value>(b).ok().map(value_tree)
}

/// Whether `serde_json::from_slice` reads the bytes `b` as one JSON value.
pub uninterp spec fn json_parses(b: Seq<u8>) -> bool;

/// `serde_json::from_slice::<serde_json::Value>`, reduced to whether it succeeds.
/// JSON syntax is `serde_json`'s own and is not restated here.
#[verifier::external_body]
pub(crate) fn parses_as_json(b: &[u8]) -> (r: bool)
    ensures
        r == json_parses(b@),
{
    serde_json::from_slice::<serde_json::Value>(b).is_ok()
}

} // verus!
