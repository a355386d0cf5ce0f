//! JSON documents, as `serde_json` reads them.
use vstd::prelude::*;

use crate::text::opt_text;

verus! {

/// A JSON document in memory.
#[verifier::external_type_specification]
#[verifier::external_body]
pub struct ExValue(serde_json::Value);

/// What a JSON document holds. A number is its shortest text, with its value
/// where that is a natural number of at most 64 bits.
pub enum Json {
    Null,
    Bool(bool),
    Number { text: Seq<char>, whole: Option<u64> },
    Text(Seq<char>),
    Array(Seq<Json>),
    Object(Map<Seq<char>, Json>),
}

/// What a document in memory holds.
pub uninterp spec fn tree(value: serde_json::Value) -> Json;

/// What `serde_json::from_str` reads out of a text.
pub uninterp spec fn document(text: Seq<char>) -> Option<Json>;

/// The compact text that `serde_json::Value` is displayed as.
pub uninterp spec fn rendering(json: Json) -> Seq<char>;

/// What an optional document holds.
pub open spec fn opt_tree(value: Option<serde_json::Value>) -> Option<Json> {
    match value {
        Some(value) => Some(tree(value)),
        None => None,
    }
}

/// A member of an object; null where there is none.
pub open spec fn field(json: Json, key: Seq<char>) -> Json {
    match json {
        Json::Object(fields) => if fields.contains_key(key) {
            fields[key]
        } else {
            Json::Null
        },
        _ => Json::Null,
    }
}

/// An item of an array; null where there is none.
pub open spec fn item(json: Json, i: int) -> Json {
    match json {
        Json::Array(items) => if 0 <= i < items.len() {
            items[i]
        } else {
            Json::Null
        },
        _ => Json::Null,
    }
}

/// The text of a string; nothing else has one.
pub open spec fn as_text(json: Json) -> Option<Seq<char>> {
    match json {
        Json::Text(text) => Some(text),
        _ => None,
    }
}

/// The value of a natural number; nothing else has one.
pub open spec fn as_whole(json: Json) -> Option<u64> {
    match json {
        Json::Number { whole, .. } => whole,
        _ => None,
    }
}

/// Calls `serde_json::from_str`: the document that a text spells, if it spells
/// one.
#[verifier::external_body]
pub(crate) fn parse(text: &str) -> (value: Option<serde_json::Value>)
    ensures
        opt_tree(value) == document(text@),
{
    serde_json::from_str(text).ok()
}

/// Indexes a `serde_json::Value` with a key: the member, or null where the
/// value is no object or has no such member.
#[verifier::external_body]
pub(crate) fn member<'a>(value: &'a serde_json::Value, key: &str) -> (r: &'a serde_json::Value)
    ensures
        tree(*r) == field(tree(*value), key@),
{
    &value[key]
}

/// Indexes a `serde_json::Value` with a position: the item, or null where the
/// value is no array or has no such item.
#[verifier::external_body]
pub(crate) fn element(value: &serde_json::Value, i: usize) -> (r: &serde_json::Value)
    ensures
        tree(*r) == item(tree(*value), i as int),
{
    &value[i]
}

/// Calls `Value::as_str`: the text of a string.
#[verifier::external_body]
pub(crate) fn text_in(value: &serde_json::Value) -> (r: Option<String>)
    ensures
        opt_text(r) == as_text(tree(*value)),
{
    value.as_str().map(str::to_owned)
}

/// Calls `Value::as_u64`: the value of a natural number of at most 64 bits.
#[verifier::external_body]
pub(crate) fn whole_in(value: &serde_json::Value) -> (r: Option<u64>)
    ensures
        r == as_whole(tree(*value)),
{
    value.as_u64()
}

/// Displays a `serde_json::Value`: its compact text, which depends on what the
/// value holds alone.
#[verifier::external_body]
pub(crate) fn rendered(value: &serde_json::Value) -> (r: String)
    ensures
        r@ == rendering(tree(*value)),
{
    value.to_string()
}

} // verus!
