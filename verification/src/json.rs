//! JSON values.
//!
//! The values are `serde_json::Value`s. Verus does not look inside them:
//! what a value holds is named by [`value_json`], and each operation that
//! the library uses is given a contract over that name.

use crate::text::debug_text;
use serde_json::Value;
use vstd::prelude::*;

verus! {

/// `serde_json::Value`: a JSON value, into which Verus does not look.
#[verifier::external_type_specification]
#[verifier::external_body]
pub struct ExValue(serde_json::Value);

/// A JSON value as a mathematical value. A number is held as it is written.
pub ghost enum JsonView {
    Null,
    Bool(bool),
    Number(Seq<char>),
    String(Seq<char>),
    Array(Seq<JsonView>),
    Object(Seq<MemberView>),
}

/// One member of an object as a mathematical value.
pub ghost struct MemberView {
    pub name: Seq<char>,
    pub value: JsonView,
}

/// The JSON value that a `serde_json::Value` holds.
pub uninterp spec fn value_json(v: Value) -> JsonView;

/// The JSON text of a value, as `serde_json` writes it in its compact form.
pub uninterp spec fn json_text(v: JsonView) -> Seq<char>;

/// What `serde_json` writes under `{:?}` for a value that is no string.
pub uninterp spec fn json_debug_text(v: JsonView) -> Seq<char>;

/// What `serde_json` writes for a value under `{:?}`. A string is written
/// as `String(..)` around what `{:?}` writes for the string itself; what is
/// written for any other value is named by [`json_debug_text`].
pub open spec fn json_debug(v: JsonView) -> Seq<char> {
    match v {
        JsonView::String(s) => "String("@ + debug_text(s) + ")"@,
        other => json_debug_text(other),
    }
}

/// The JSON value that a text is, as `serde_json` reads it, if it is one.
pub uninterp spec fn parsed_json(text: Seq<char>) -> Option<JsonView>;

/// What a list of values holds.
pub open spec fn views(items: Seq<Value>) -> Seq<JsonView> {
    Seq::new(items.len(), |i: int| value_json(items[i]))
}

/// What an optional value holds.
pub open spec fn opt_view(j: Option<Value>) -> Option<JsonView> {
    match j {
        Some(j) => Some(value_json(j)),
        None => None,
    }
}

/// `Value::as_str`: the text of a value that is a string, and nothing for
/// any other value.
pub assume_specification<'a>[ Value::as_str ](v: &'a Value) -> (r: Option<&'a str>)
    ensures
        match r {
            Some(s) => value_json(*v) == JsonView::String(s@),
            None => !(value_json(*v) is String),
        },
;

/// `Value::as_array`: the items of a value that is an array, and nothing
/// for any other value.
pub assume_specification<'a>[ Value::as_array ](v: &'a Value) -> (r: Option<&'a Vec<Value>>)
    ensures
        match r {
            Some(items) => value_json(*v) == JsonView::Array(views(items@)),
            None => !(value_json(*v) is Array),
        },
;

/// `Clone::clone` of a value: the copy holds the same.
pub assume_specification[ <Value as Clone>::clone ](v: &Value) -> (c: Value)
    ensures
        value_json(c) == value_json(*v),
;

/// `Value::Array`: the array of the given items.
#[verifier::external_body]
pub(crate) fn array_value(items: Vec<Value>) -> (v: Value)
    ensures
        value_json(v) == JsonView::Array(views(items@)),
{
    Value::Array(items)
}

/// `Value::String`: the string of the given text.
#[verifier::external_body]
pub(crate) fn string_value(s: String) -> (v: Value)
    ensures
        value_json(v) == JsonView::String(s@),
{
    Value::String(s)
}

/// A match on `serde_json::Value`: the items of a value that is a
/// `Value::Array`, moved out of it; any other value is handed back as it
/// is.
#[verifier::external_body]
pub(crate) fn into_array(v: Value) -> (r: Result<Vec<Value>, Value>)
    ensures
        match r {
            Ok(items) => value_json(v) == JsonView::Array(views(items@)),
            Err(other) => other == v && !(value_json(v) is Array),
        },
{
    match v {
        Value::Array(items) => Ok(items),
        other => Err(other),
    }
}

/// `Display` of a value, through `to_string`: its JSON text. The result is
/// named by [`json_text`]; nothing more is claimed of it.
#[verifier::external_body]
pub(crate) fn value_text(v: &Value) -> (r: String)
    ensures
        r@ == json_text(value_json(*v)),
{
    v.to_string()
}

/// `Debug` of a value, through `format!`. For a string it writes
/// `String(`, the string as `{:?}` writes a string, and `)`. For any other
/// value the result is named by [`json_debug_text`], and nothing more is
/// claimed of it.
#[verifier::external_body]
pub(crate) fn value_debug_text(v: &Value) -> (r: String)
    ensures
        r@ == json_debug(value_json(*v)),
        !(value_json(*v) is String) ==> r@ == json_debug_text(value_json(*v)),
{
    format!("{:?}", v)
}

/// `serde_json::from_str::<Value>`: the value that a text is, or nothing
/// where the text is no JSON. The result is named by [`parsed_json`];
/// nothing more is claimed of it.
#[verifier::external_body]
pub(crate) fn parse_value(text: &str) -> (r: Option<Value>)
    ensures
        match r {
            Some(v) => parsed_json(text@) == Some(value_json(v)),
            None => parsed_json(text@) is None,
        },
{
    serde_json::from_str::<Value>(text).ok()
}

} // verus!
