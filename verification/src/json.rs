//! The boundary to `serde` and `serde_json`: the outside types that the
//! library carries, a name for the outcome of each outside call, and one
//! trusted function per call. Nothing in this file is proved; every contract
//! here is a claim about the outside code.

use vstd::prelude::*;
use serde_json::Value;

verus! {

/// A JSON value of `serde_json`. The library carries such values and asks
/// `serde_json` what is in them; it never looks inside one itself.
#[verifier::external_type_specification]
#[verifier::external_body]
pub struct ExValue(serde_json::Value);

/// The error type of `serde_json`.
#[verifier::external_type_specification]
#[verifier::external_body]
pub struct ExJsonError(serde_json::Error);

/// What `serde_json::from_str` makes of a text when asked for a `Value`.
pub uninterp spec fn parsed_text(text: Seq<char>) -> Result<Value, serde_json::Error>;

/// What decoding a value as a string gives.
pub uninterp spec fn value_as_text(v: Value) -> Result<Seq<char>, serde_json::Error>;

/// What decoding a value as a boolean gives.
pub uninterp spec fn value_as_flag(v: Value) -> Result<bool, serde_json::Error>;

/// What decoding a value as a map gives: its members, in the order in which
/// the map hands them out.
pub uninterp spec fn value_as_members(v: Value) -> Result<
    Seq<(Seq<char>, Value)>,
    serde_json::Error,
>;

/// The error that `serde` builds for a required field that is absent.
pub uninterp spec fn missing_field_error(field: Seq<char>) -> serde_json::Error;

/// The error that `serde` builds for a field that occurs a second time.
pub uninterp spec fn duplicate_field_error(field: Seq<char>) -> serde_json::Error;

/// The error that `serde` builds for a variant tag outside the expected ones.
pub uninterp spec fn unknown_variant_error(
    tag: Seq<char>,
    expected: Seq<Seq<char>>,
) -> serde_json::Error;

/// A list of members as the contracts see it: each name by its characters,
/// each value as it is.
pub open spec fn members_view(members: Seq<(String, Value)>) -> Seq<(Seq<char>, Value)> {
    members.map_values(|m: (String, Value)| (m.0@, m.1))
}

/// `Clone::clone` of `serde_json::Value`, which `serde_json` derives. Claims
/// that the copy is the same value.
pub assume_specification[ <serde_json::Value as Clone>::clone ](v: &Value) -> (copy: Value)
    ensures
        copy == *v,
;

/// Calls `serde_json::from_str` for a `Value`. Claims only that the outcome
/// is a function of the text.
#[verifier::external_body]
pub(crate) fn parse_text(text: &str) -> (r: Result<Value, serde_json::Error>)
    ensures
        r == parsed_text(text@),
{
    serde_json::from_str::<Value>(text)
}

/// Calls `serde`'s `Deserialize::deserialize` of `String` on a borrowed
/// `Value`. Claims only that the outcome is a function of the value.
#[verifier::external_body]
pub(crate) fn decode_text(v: &Value) -> (r: Result<String, serde_json::Error>)
    ensures
        match r {
            Ok(s) => value_as_text(*v) == Ok::<Seq<char>, serde_json::Error>(s@),
            Err(e) => value_as_text(*v) == Err::<Seq<char>, serde_json::Error>(e),
        },
{
    <String as serde::Deserialize>::deserialize(v)
}

/// Calls `serde`'s `Deserialize::deserialize` of `bool` on a borrowed
/// `Value`. Claims only that the outcome is a function of the value.
#[verifier::external_body]
pub(crate) fn decode_flag(v: &Value) -> (r: Result<bool, serde_json::Error>)
    ensures
        r == value_as_flag(*v),
{
    <bool as serde::Deserialize>::deserialize(v)
}

/// Calls `Deserialize::deserialize` of `serde_json::Map` on a borrowed
/// `Value` and hands the map's members out as a list, in the map's own
/// order. Claims only that the outcome is a function of the value.
#[verifier::external_body]
pub(crate) fn decode_members(v: &Value) -> (r: Result<Vec<(String, Value)>, serde_json::Error>)
    ensures
        match r {
            Ok(members) => value_as_members(*v) == Ok::<
                Seq<(Seq<char>, Value)>,
                serde_json::Error,
            >(members_view(members@)),
            Err(e) => value_as_members(*v) == Err::<Seq<(Seq<char>, Value)>, serde_json::Error>(
                e,
            ),
        },
{
    match <serde_json::Map<String, Value> as serde::Deserialize>::deserialize(v) {
        Ok(map) => Ok(map.into_iter().collect()),
        Err(e) => Err(e),
    }
}

/// Calls `serde::de::Error::missing_field` for a `serde_json::Error`. Claims
/// only that the error is a function of the field's name.
#[verifier::external_body]
pub(crate) fn missing_field(field: &'static str) -> (e: serde_json::Error)
    ensures
        e == missing_field_error(field@),
{
    serde::de::Error::missing_field(field)
}

/// Calls `serde::de::Error::duplicate_field` for a `serde_json::Error`.
/// Claims only that the error is a function of the field's name.
#[verifier::external_body]
pub(crate) fn duplicate_field(field: &'static str) -> (e: serde_json::Error)
    ensures
        e == duplicate_field_error(field@),
{
    serde::de::Error::duplicate_field(field)
}

/// Calls `serde::de::Error::unknown_variant` for a `serde_json::Error`.
/// Claims only that the error is a function of the tag and of the expected
/// tags.
#[verifier::external_body]
pub(crate) fn unknown_variant(tag: &str, expected: &'static [&'static str]) -> (e:
    serde_json::Error)
    ensures
        e == unknown_variant_error(tag@, expected@.map_values(|s: &'static str| s@)),
{
    serde::de::Error::unknown_variant(tag, expected)
}

} // verus!
