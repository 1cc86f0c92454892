//! Trusted wrappers around `serde_json`, with named results.
//!
//! Each wrapper reads one thing out of a JSON document: the members of an
//! object-valued top-level member, or one scalar member.  Every result is a
//! function of the document text and the member name alone, so each carries
//! an uninterpreted name that the callers' contracts are stated over; all
//! further interpretation of the extracted plain values is verified code.

use vstd::prelude::*;

verus! {

/// The members of the object at top-level member `key` of the document
/// `body`: each member's name with its value rendered back to JSON text.
/// `None` when `body` is not a JSON document, the member is absent, or its
/// value is not an object.
pub uninterp spec fn json_members(body: Seq<char>, key: Seq<char>) -> Option<
    Seq<(Seq<char>, Seq<char>)>,
>;

/// The content of the string-valued top-level member `key`, if the document
/// parses and the member is a string.
pub uninterp spec fn json_string_member(body: Seq<char>, key: Seq<char>) -> Option<Seq<char>>;

/// The unsigned-integer top-level member `key`, if the document parses and
/// the member is a number representable as `u64`.
pub uninterp spec fn json_u64_member(body: Seq<char>, key: Seq<char>) -> Option<u64>;

/// The boolean top-level member `key`, if the document parses and the
/// member is a boolean.
pub uninterp spec fn json_bool_member(body: Seq<char>, key: Seq<char>) -> Option<bool>;

/// The view of an extracted member list.
pub open spec fn entry_views(s: Seq<(String, String)>) -> Seq<(Seq<char>, Seq<char>)> {
    s.map_values(|e: (String, String)| (e.0@, e.1@))
}

/// Relies on `serde_json::from_str::<Value>`, `Value::get`,
/// `Value::as_object` and `Value`'s `Display`: hands out the members named
/// by `json_members`.  The map behind an object is a `BTreeMap` keyed by the
/// member names (the `preserve_order` feature is off), so the names are
/// pairwise distinct; parsing rejects malformed and over-deep input with an
/// error, and rendering a value back to text cannot fail.
#[verifier::external_body]
pub fn object_members(body: &str, key: &str) -> (r: Option<Vec<(String, String)>>)
    ensures
        r matches Some(es) ==> json_members(body@, key@) == Some(entry_views(es@)),
        r is None <==> json_members(body@, key@) is None,
        r matches Some(es) ==> forall|i: int, j: int|
            0 <= i < j < es@.len() ==> (#[trigger] es@[i]).0@ != (#[trigger] es@[j]).0@,
{
    let doc: serde_json::Value = match serde_json::from_str(body) {
        Ok(v) => v,
        Err(_) => return None,
    };
    let map = match doc.get(key).and_then(|v| v.as_object()) {
        Some(m) => m,
        None => return None,
    };
    Some(map.iter().map(|(k, v)| (k.clone(), v.to_string())).collect())
}

/// Relies on `serde_json::from_str::<Value>`, `Value::get` and
/// `Value::as_str`: the string member named by `json_string_member`.
#[verifier::external_body]
pub fn string_member(body: &str, key: &str) -> (r: Option<String>)
    ensures
        r matches Some(s) ==> json_string_member(body@, key@) == Some(s@),
        r is None <==> json_string_member(body@, key@) is None,
{
    let doc: serde_json::Value = match serde_json::from_str(body) {
        Ok(v) => v,
        Err(_) => return None,
    };
    doc.get(key).and_then(|v| v.as_str()).map(|s| s.to_owned())
}

/// Relies on `serde_json::from_str::<Value>`, `Value::get` and
/// `Value::as_u64`: the integer member named by `json_u64_member`.
#[verifier::external_body]
pub fn u64_member(body: &str, key: &str) -> (r: Option<u64>)
    ensures
        r == json_u64_member(body@, key@),
{
    let doc: serde_json::Value = match serde_json::from_str(body) {
        Ok(v) => v,
        Err(_) => return None,
    };
    doc.get(key).and_then(|v| v.as_u64())
}

/// Relies on `serde_json::from_str::<Value>`, `Value::get` and
/// `Value::as_bool`: the boolean member named by `json_bool_member`.
#[verifier::external_body]
pub fn bool_member(body: &str, key: &str) -> (r: Option<bool>)
    ensures
        r == json_bool_member(body@, key@),
{
    let doc: serde_json::Value = match serde_json::from_str(body) {
        Ok(v) => v,
        Err(_) => return None,
    };
    doc.get(key).and_then(|v| v.as_bool())
}

} // verus!
