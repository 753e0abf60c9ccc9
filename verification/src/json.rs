//! What this library reads of a JSON document, which `serde_json` parses and
//! holds.

use vstd::prelude::*;

verus! {

/// `serde_json::Value`, which stays opaque.
#[verifier::external_type_specification]
#[verifier::external_body]
pub struct ExValue(serde_json::Value);

/// What a JSON value holds. Numbers are not told apart: nothing here reads one.
pub ghost enum Json {
    Null,
    Bool(bool),
    Number,
    Text(Seq<char>),
    List(Seq<Json>),
    Record(Map<Seq<char>, Json>),
}

impl Json {
    /// The member of an object under `name`, or null where there is none.
    pub open spec fn member(self, name: Seq<char>) -> Json {
        match self {
            Json::Record(members) => if members.contains_key(name) {
                members[name]
            } else {
                Json::Null
            },
            _ => Json::Null,
        }
    }

    /// The characters of a string.
    pub open spec fn text(self) -> Option<Seq<char>> {
        match self {
            Json::Text(text) => Some(text),
            _ => None,
        }
    }

    /// The elements of an array.
    pub open spec fn items(self) -> Option<Seq<Json>> {
        match self {
            Json::List(items) => Some(items),
            _ => None,
        }
    }
}

/// What a `serde_json::Value` holds.
pub uninterp spec fn json_of(value: serde_json::Value) -> Json;

/// The document that `serde_json::from_slice` reads from some bytes, or `None`
/// where it finds no JSON document there.
pub uninterp spec fn parsed(bytes: Seq<u8>) -> Option<Json>;

/// `serde_json::from_slice` into a `Value`: the document in `bytes`, and `None`
/// where it returns an error. What it reads is a function of the bytes alone.
#[verifier::external_body]
pub(crate) fn parse(bytes: &[u8]) -> (document: Option<serde_json::Value>)
    ensures
        match document {
            Some(value) => parsed(bytes@) == Some(json_of(value)),
            None => parsed(bytes@) is None,
        },
{
    serde_json::from_slice(bytes).ok()
}

/// `serde_json::Value` indexed by a string: the member of an object under that
/// name, and null where the value is no object or has no such member.
#[verifier::external_body]
pub(crate) fn member<'a>(value: &'a serde_json::Value, name: &str) -> (member: &'a serde_json::Value)
    ensures
        json_of(*member) == json_of(*value).member(name@),
{
    &value[name]
}

/// `serde_json::Value::as_str`: the text of a JSON string, and `None` of any
/// other value.
pub assume_specification[ serde_json::Value::as_str ](value: &serde_json::Value) -> (text: Option<
    &str,
>)
    ensures
        match text {
            Some(text) => json_of(*value).text() == Some(text@),
            None => json_of(*value).text() is None,
        },
;

/// `serde_json::Value::as_array`: the elements of a JSON array in their order,
/// and `None` of any other value.
pub assume_specification[ serde_json::Value::as_array ](
    value: &serde_json::Value,
) -> (items: Option<&Vec<serde_json::Value>>)
    ensures
        match items {
            Some(items) => json_of(*value).items() == Some(
                items@.map_values(|item: serde_json::Value| json_of(item)),
            ),
            None => json_of(*value).items() is None,
        },
;

} // verus!
