//! JSON documents. They are parsed, taken apart and written by `serde_json`;
//! this module states what the library relies on from it.
//!
//! A document is known by its compact text: the text that `serde_json`
//! writes for it, which determines the document. What the accessors return is
//! stated over that text.

use vstd::prelude::*;

verus! {

/// `serde_json::Value`, used as it is: nothing inside it is visible here.
#[verifier::external_type_specification]
#[verifier::external_body]
pub struct ExValue(serde_json::Value);

/// The compact text of a document, as `serde_json::to_string` writes it.
pub uninterp spec fn json_text(v: serde_json::Value) -> Seq<char>;

/// The compact text of the document that `serde_json::from_str` reads from
/// `text`; `None` where it refuses `text`.
pub uninterp spec fn json_parsed(text: Seq<char>) -> Option<Seq<char>>;

/// The compact text of the member that `Value::get` finds under `key` in the
/// document with compact text `doc`; `None` where the document is no object
/// or has no such member.
pub uninterp spec fn json_member(doc: Seq<char>, key: Seq<char>) -> Option<Seq<char>>;

/// What `Value::as_i64` returns for the document with compact text `doc`.
pub uninterp spec fn json_integer(doc: Seq<char>) -> Option<i64>;

/// What `Value::as_str` returns for the document with compact text `doc`.
pub uninterp spec fn json_string(doc: Seq<char>) -> Option<Seq<char>>;

/// What `Value::is_null` returns for the document with compact text `doc`.
pub uninterp spec fn json_null(doc: Seq<char>) -> bool;

/// The compact text of the document that is the string `s`.
pub uninterp spec fn json_quoted(s: Seq<char>) -> Seq<char>;

/// Calls `serde_json::from_str` for a `Value`. The result is the document
/// that `json_parsed` names, or nothing where the text is refused.
#[verifier::external_body]
pub(crate) fn parse_json(text: &str) -> (out: Option<serde_json::Value>)
    ensures
        match out {
            Some(v) => json_parsed(text@) == Some(json_text(v)),
            None => json_parsed(text@) is None,
        },
{
    serde_json::from_str::<serde_json::Value>(text).ok()
}

/// Calls `serde_json::to_string` on a `Value`. It writes the compact text of
/// the document, and it always writes: the keys of a `Value` are strings,
/// and writing into memory does not fail.
#[verifier::external_body]
pub(crate) fn write_json(v: &serde_json::Value) -> (out: Option<String>)
    ensures
        out is Some,
        out matches Some(s) ==> s@ == json_text(*v),
{
    serde_json::to_string(v).ok()
}

/// Calls `Value::get` with a string key: the member of an object under that
/// key, if the document is an object and has one.
#[verifier::external_body]
pub(crate) fn json_get<'a>(v: &'a serde_json::Value, key: &str) -> (out: Option<
    &'a serde_json::Value,
>)
    ensures
        match out {
            Some(m) => json_member(json_text(*v), key@) == Some(json_text(*m)),
            None => json_member(json_text(*v), key@) is None,
        },
{
    v.get(key)
}

/// Calls `Value::from` on a string slice: the document that is that string.
#[verifier::external_body]
pub(crate) fn json_string_value(s: &str) -> (out: serde_json::Value)
    ensures
        json_text(out) == json_quoted(s@),
{
    serde_json::Value::from(s)
}

/// `Value::as_i64`: the integer that the document is, where it is one that
/// fits sixty-four bits with a sign.
pub assume_specification[ serde_json::Value::as_i64 ](v: &serde_json::Value) -> (out: Option<i64>)
    ensures
        out == json_integer(json_text(*v)),
;

/// `Value::as_str`: the string that the document is, where it is one.
pub assume_specification<'a>[ serde_json::Value::as_str ](v: &'a serde_json::Value) -> (out:
    Option<&'a str>)
    ensures
        match out {
            Some(s) => json_string(json_text(*v)) == Some(s@),
            None => json_string(json_text(*v)) is None,
        },
;

/// `Value::clone`: a document with the same compact text.
pub assume_specification[ <serde_json::Value as Clone>::clone ](v: &serde_json::Value) -> (out:
    serde_json::Value)
    ensures
        json_text(out) == json_text(*v),
;

/// `Value::is_null`: whether the document is `null`.
pub assume_specification[ serde_json::Value::is_null ](v: &serde_json::Value) -> (out: bool)
    ensures
        out == json_null(json_text(*v)),
;

} // verus!
