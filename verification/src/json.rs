//! JSON values.
use vstd::prelude::*;

verus! {

/// A JSON value.
#[verifier::external_type_specification]
#[verifier::external_body]
pub struct ExValue(serde_json::Value);

/// What a JSON value holds, as far as it is read here.
pub enum Json {
    Text(Seq<char>),
    /// A number, where it is an integer that fits.
    Number(Option<u64>),
    Array(Seq<Json>),
    Object(Map<Seq<char>, Json>),
    /// A truth value, or null.
    Other,
}

/// What a JSON value holds.
pub uninterp spec fn json_view(value: serde_json::Value) -> Json;

/// What `serde_json::from_slice` makes of bytes: nothing where they are no JSON.
pub uninterp spec fn json_parsed(bytes: Seq<u8>) -> Option<Json>;

/// `serde_json::from_slice`: reads a JSON value. Which value it is depends on the bytes alone; the
/// grammar is left to the name.
#[verifier::external_body]
pub(crate) fn parse(bytes: &[u8]) -> (value: Option<serde_json::Value>)
    ensures
        match value {
            Some(found) => json_parsed(bytes@) == Some(json_view(found)),
            None => json_parsed(bytes@) is None,
        },
{
    serde_json::from_slice(bytes).ok()
}

/// `serde_json::Value::get`: the member of an object with the given key.
#[verifier::external_body]
pub(crate) fn member<'a>(value: &'a serde_json::Value, key: &str) -> (found: Option<
    &'a serde_json::Value,
>)
    ensures
        match (json_member(json_view(*value), key@), found) {
            (Some(expected), Some(given)) => json_view(*given) == expected,
            (None, None) => true,
            _ => false,
        },
{
    value.get(key)
}

/// `serde_json::Value::as_str`: the text of a value that is one.
pub assume_specification[ serde_json::Value::as_str ](value: &serde_json::Value) -> (text: Option<
    &str,
>)
    ensures
        match (json_text(json_view(*value)), text) {
            (Some(expected), Some(given)) => given@ == expected,
            (None, None) => true,
            _ => false,
        },
;

/// `serde_json::Value::as_u64`: the number of a value that is an integer and fits.
pub assume_specification[ serde_json::Value::as_u64 ](value: &serde_json::Value) -> (number: Option<
    u64,
>)
    ensures
        number == json_number(json_view(*value)),
;

/// `serde_json::Value::as_array`: the items of a value that is an array.
pub assume_specification[ serde_json::Value::as_array ](value: &serde_json::Value) -> (items: Option<
    &Vec<serde_json::Value>,
>)
    ensures
        match (json_view(*value), items) {
            (Json::Array(expected), Some(given)) => json_views(given@) == expected,
            (Json::Array(_), None) => false,
            (_, given) => given is None,
        },
;

/// What JSON values hold.
pub open spec fn json_views(values: Seq<serde_json::Value>) -> Seq<Json> {
    Seq::new(values.len(), |index: int| json_view(values[index]))
}

/// The member of an object with the given key.
pub open spec fn json_member(value: Json, key: Seq<char>) -> Option<Json> {
    match value {
        Json::Object(members) => if members.dom().contains(key) {
            Some(members[key])
        } else {
            None
        },
        _ => None,
    }
}

/// The text of a value that is one.
pub open spec fn json_text(value: Json) -> Option<Seq<char>> {
    match value {
        Json::Text(text) => Some(text),
        _ => None,
    }
}

/// The number of a value that is an integer and fits.
pub open spec fn json_number(value: Json) -> Option<u64> {
    match value {
        Json::Number(number) => number,
        _ => None,
    }
}

/// The items of an array, and none of anything else.
pub open spec fn json_items(value: Option<Json>) -> Seq<Json> {
    match value {
        Some(Json::Array(items)) => items,
        _ => Seq::empty(),
    }
}

/// The member of an object, where there is an object.
pub open spec fn json_step(value: Option<Json>, key: Seq<char>) -> Option<Json> {
    match value {
        Some(found) => json_member(found, key),
        None => None,
    }
}

/// The number of a value, where there is one.
pub open spec fn json_number_of(value: Option<Json>) -> Option<u64> {
    match value {
        Some(found) => json_number(found),
        None => None,
    }
}

/// The text of a value, where there is one.
pub open spec fn json_text_of(value: Option<Json>) -> Option<Seq<char>> {
    match value {
        Some(found) => json_text(found),
        None => None,
    }
}

/// A value, where there is one, by what it holds.
pub open spec fn found_view(value: Option<&serde_json::Value>) -> Option<Json> {
    match value {
        Some(found) => Some(json_view(*found)),
        None => None,
    }
}

/// The member of an object, where there is an object.
pub fn step<'a>(value: Option<&'a serde_json::Value>, key: &str) -> (found: Option<
    &'a serde_json::Value,
>)
    ensures
        found_view(found) == json_step(found_view(value), key@),
{
    match value {
        Some(object) => member(object, key),
        None => None,
    }
}

/// The number of a value, where there is one.
pub fn number_of(value: Option<&serde_json::Value>) -> (number: Option<u64>)
    ensures
        number == json_number_of(found_view(value)),
{
    match value {
        Some(found) => found.as_u64(),
        None => None,
    }
}

} // verus!
