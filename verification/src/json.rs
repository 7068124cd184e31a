//! The JSON values that tool calls carry, as `serde_json` holds them.
//!
//! Everything in this module that Verus does not prove is a statement about
//! `serde_json`; the rest of the crate only ever compares JSON values through
//! it.

use vstd::prelude::*;

verus! {

/// The mathematical content of a JSON number.
///
/// Integers and floating-point numbers are kept apart, as `serde_json` keeps
/// them apart: `1` and `1.0` are different numbers.
pub enum JsonNumber {
    /// An integer that is not negative.
    Unsigned(u64),
    /// A negative integer.
    Negative(i64),
    /// A finite double, in units of two to the power of minus 1074, of which
    /// every finite double is a whole multiple. Both zeros are `Float(0)`.
    Float(int),
}

/// The mathematical content of a JSON value.
///
/// The entries of an object form a map: the order in which they were written
/// is no part of the content.
pub enum Json {
    Null,
    Bool(bool),
    Number(JsonNumber),
    Text(Seq<char>),
    Array(Seq<Json>),
    Object(Map<Seq<char>, Json>),
}

/// Makes `serde_json::Value` known to Verus, as an opaque type.
#[verifier::external_type_specification]
#[verifier::external_body]
pub struct ExValue(serde_json::Value);

/// Makes `serde_json::Map` known to Verus, as an opaque type.
#[verifier::external_type_specification]
#[verifier::external_body]
#[verifier::reject_recursive_types(K)]
#[verifier::reject_recursive_types(V)]
pub struct ExObject<K, V>(serde_json::Map<K, V>);

/// What a `serde_json` value holds.
pub uninterp spec fn json_value(value: serde_json::Value) -> Json;

/// What a `serde_json` object holds: the content of each entry, by its key.
pub uninterp spec fn json_object(object: serde_json::Map<String, serde_json::Value>) -> Map<
    Seq<char>,
    Json,
>;

/// Builds `serde_json::Value::Null`, the value that holds nothing.
#[verifier::external_body]
pub(crate) fn null_value() -> (value: serde_json::Value)
    ensures
        json_value(value) == Json::Null,
{
    serde_json::Value::Null
}

/// Clones an object with `serde_json`'s `Clone` for `Map`. The clone holds the
/// same entries.
#[verifier::external_body]
pub(crate) fn clone_object(object: &serde_json::Map<String, serde_json::Value>) -> (clone:
    serde_json::Map<String, serde_json::Value>)
    ensures
        json_object(clone) == json_object(*object),
{
    object.clone()
}

/// Wraps an object with `serde_json::Value::Object`. The value holds the
/// entries of the object.
#[verifier::external_body]
pub(crate) fn object_value(object: serde_json::Map<String, serde_json::Value>) -> (value:
    serde_json::Value)
    ensures
        json_value(value) == Json::Object(json_object(object)),
{
    serde_json::Value::Object(object)
}

/// Compares two values with `serde_json`'s `PartialEq` for `Value`, which
/// holds between two values exactly when they have the same content.
#[verifier::external_body]
pub(crate) fn same_value(left: &serde_json::Value, right: &serde_json::Value) -> (same: bool)
    ensures
        same == (json_value(*left) == json_value(*right)),
{
    left == right
}

} // verus!
