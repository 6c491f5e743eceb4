//! JSON documents, which the `serde_json` crate reads.
//!
//! Nothing in this file is proved: each function states what `serde_json`
//! does, as its source shows it, over a plain model of a JSON value.
use vstd::prelude::*;

verus! {

/// A JSON value as plain values. Of a number it keeps what the manifest
/// reads: its value where it is a whole number from 0 to 2^64 - 1.
pub enum Json {
    Null,
    Bool(bool),
    Number(Option<u64>),
    Text(Seq<char>),
    Array(Seq<Json>),
    Object(Map<Seq<char>, Json>),
}

/// `serde_json::Value`, a JSON value. What a value holds is known by
/// [`content`] alone.
#[verifier::external_type_specification]
#[verifier::external_body]
pub struct ExValue(serde_json::Value);

/// `serde_json::Error`, with which a text is refused. Nothing is known of it.
#[verifier::external_type_specification]
#[verifier::external_body]
pub struct ExError(serde_json::Error);

/// The JSON value that a text denotes, if it is one JSON document.
pub uninterp spec fn document(text: Seq<char>) -> Option<Json>;

/// What a value of `serde_json` holds.
pub uninterp spec fn content(value: serde_json::Value) -> Json;

/// `serde_json::from_str` for a `Value`: the value that the text denotes, or
/// an error where the text is no JSON document.
#[verifier::external_body]
pub(crate) fn parse(text: &str) -> (value: Result<serde_json::Value, serde_json::Error>)
    ensures
        match value {
            Ok(value) => document(text@) == Some(content(value)),
            Err(_) => document(text@) is None,
        },
{
    serde_json::from_str(text)
}

/// `Value::get` with a name: the member of that name, where the value is an
/// object that has one.
#[verifier::external_body]
pub(crate) fn member<'a>(value: &'a serde_json::Value, name: &str) -> (found: Option<
    &'a serde_json::Value,
>)
    ensures
        match found {
            Some(found) => content(*value) is Object && content(*value)->Object_0.contains_key(
                name@,
            ) && content(*found) == content(*value)->Object_0[name@],
            None => !(content(*value) is Object && content(*value)->Object_0.contains_key(name@)),
        },
{
    value.get(name)
}

/// `Value::as_array`: the elements, where the value is an array.
#[verifier::external_body]
pub(crate) fn elements<'a>(value: &'a serde_json::Value) -> (found: Option<
    &'a Vec<serde_json::Value>,
>)
    ensures
        match found {
            Some(found) => content(*value) is Array && found@.len() == content(
                *value,
            )->Array_0.len() && forall|i: int|
                0 <= i < found@.len() ==> content(#[trigger] found@[i]) == content(
                    *value,
                )->Array_0[i],
            None => !(content(*value) is Array),
        },
{
    value.as_array()
}

/// `Value::as_str`: the characters, where the value is a string.
#[verifier::external_body]
pub(crate) fn text<'a>(value: &'a serde_json::Value) -> (found: Option<&'a str>)
    ensures
        match found {
            Some(found) => content(*value) == Json::Text(found@),
            None => !(content(*value) is Text),
        },
{
    value.as_str()
}

/// `Value::as_u64`: the number, where the value is a whole number from 0 to
/// 2^64 - 1.
#[verifier::external_body]
pub(crate) fn unsigned(value: &serde_json::Value) -> (found: Option<u64>)
    ensures
        match found {
            Some(found) => content(*value) == Json::Number(Some(found)),
            None => !(content(*value) is Number && content(*value)->Number_0 is Some),
        },
{
    value.as_u64()
}

/// `Value::is_null`.
#[verifier::external_body]
pub(crate) fn is_null(value: &serde_json::Value) -> (yes: bool)
    ensures
        yes == (content(*value) is Null),
{
    value.is_null()
}

/// `Value::is_object`.
#[verifier::external_body]
pub(crate) fn is_object(value: &serde_json::Value) -> (yes: bool)
    ensures
        yes == (content(*value) is Object),
{
    value.is_object()
}

} // verus!
