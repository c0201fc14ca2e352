//! The boundary to the JSON codec.
//!
//! JSON values are parsed, printed, taken apart and built by `serde_json`.
//! To the verifier a `serde_json::Value` is an opaque value; what the codec
//! returns is given a name here, and the functions below are believed, not
//! proved, to return what those names stand for. Equality of values in
//! contracts is identity of the JSON data they hold.

use vstd::prelude::*;
use serde_json::Value;

verus! {

/// `serde_json::Value`, carried through without a look inside.
#[verifier::external_type_specification]
#[verifier::external_body]
pub struct ExValue(serde_json::Value);

/// What `serde_json::from_str` makes of a text: the value it denotes, or the
/// message of the error it is rejected with.
pub uninterp spec fn json_parse(text: Seq<char>) -> Result<Value, Seq<char>>;

/// What `serde_json::to_string` makes of a value: its compact text, or the
/// message of the error it fails with.
pub uninterp spec fn json_text(value: Value) -> Result<Seq<char>, Seq<char>>;

/// The member that `Value::get` finds under a name: present only in an
/// object that has a member of that name.
pub uninterp spec fn json_field(value: Value, name: Seq<char>) -> Option<Value>;

/// The text that `Value::as_str` finds in a value: present only in a JSON
/// string.
pub uninterp spec fn json_string(value: Value) -> Option<Seq<char>>;

/// The JSON string that holds the given text.
pub uninterp spec fn json_of_string(text: Seq<char>) -> Value;

/// The JSON object collected from the given members.
pub uninterp spec fn json_object(members: Seq<(Seq<char>, Value)>) -> Value;

/// The JSON array that holds the given items.
pub uninterp spec fn json_array(items: Seq<Value>) -> Value;

/// The members of an object under construction, as the contracts see them.
pub open spec fn member_views(members: Seq<(String, Value)>) -> Seq<(Seq<char>, Value)> {
    members.map_values(|m: (String, Value)| (m.0@, m.1))
}

/// The text of JSON null.
pub open spec fn null_text() -> Seq<char> {
    "null"@
}

/// `serde_json::from_str` at type `Value`. Believed: the outcome depends on
/// the text alone, and is the value or the error message named by
/// [`json_parse`].
#[verifier::external_body]
pub(crate) fn parse_value(text: &str) -> (r: Result<Value, String>)
    ensures
        match r {
            Ok(v) => json_parse(text@) == Ok::<Value, Seq<char>>(v),
            Err(e) => json_parse(text@) == Err::<Value, Seq<char>>(e@),
        },
{
    match serde_json::from_str::<Value>(text) {
        Ok(v) => Ok(v),
        Err(e) => Err(e.to_string()),
    }
}

/// `serde_json::to_string` on a `Value`. Believed: the outcome depends on the
/// value alone, and is the text or the error message named by [`json_text`].
#[verifier::external_body]
pub(crate) fn value_text(value: &Value) -> (r: Result<String, String>)
    ensures
        match r {
            Ok(s) => json_text(*value) == Ok::<Seq<char>, Seq<char>>(s@),
            Err(e) => json_text(*value) == Err::<Seq<char>, Seq<char>>(e@),
        },
{
    match serde_json::to_string(value) {
        Ok(s) => Ok(s),
        Err(e) => Err(e.to_string()),
    }
}

/// `Value::get` with a string index, the member copied out. Believed: the
/// result is the member named by [`json_field`].
#[verifier::external_body]
pub(crate) fn field_of(value: &Value, name: &str) -> (r: Option<Value>)
    ensures
        r == json_field(*value, name@),
{
    value.get(name).cloned()
}

/// `Value::as_str`, the text copied out. Believed: the result is the text
/// named by [`json_string`].
#[verifier::external_body]
pub(crate) fn string_of(value: &Value) -> (r: Option<String>)
    ensures
        match r {
            Some(s) => json_string(*value) == Some(s@),
            None => json_string(*value) is None,
        },
{
    value.as_str().map(String::from)
}

/// `Value::from` on a string slice. Believed: the result is the JSON string
/// named by [`json_of_string`].
#[verifier::external_body]
pub(crate) fn string_value(text: &str) -> (r: Value)
    ensures
        r == json_of_string(text@),
{
    Value::from(text)
}

/// Collects members into a `serde_json::Map` and wraps it as `Value::Object`.
/// Believed: the result depends on the members alone and is the object named
/// by [`json_object`].
#[verifier::external_body]
pub(crate) fn object_value(members: Vec<(String, Value)>) -> (r: Value)
    ensures
        r == json_object(member_views(members@)),
{
    Value::Object(members.into_iter().collect())
}

/// `Value::from` on a vector of values. Believed: the result is the array
/// named by [`json_array`].
#[verifier::external_body]
pub(crate) fn array_value(items: Vec<Value>) -> (r: Value)
    ensures
        r == json_array(items@),
{
    Value::from(items)
}

/// `Value::default`, which is JSON null. Believed: the result is the value
/// that the text `null` parses to.
#[verifier::external_body]
pub(crate) fn null_value() -> (r: Value)
    ensures
        match json_parse(null_text()) {
            Ok(v) => v == r,
            Err(_) => false,
        },
{
    Value::default()
}

/// `Value::clone`. Believed: the copy holds the same JSON data.
#[verifier::external_body]
pub(crate) fn clone_value(value: &Value) -> (r: Value)
    ensures
        r == *value,
{
    value.clone()
}

} // verus!
