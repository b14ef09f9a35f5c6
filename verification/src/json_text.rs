//! JSON text: read into a `JsonValue`, and pretty-printed, by `serde_json`.
use vstd::prelude::*;

use crate::json::{JsonNumber, JsonValue};

verus! {

/// `serde_json::Value`, carried opaquely between the calls below.
#[verifier::external_type_specification]
#[verifier::external_body]
pub struct ExSerdeValue(serde_json::Value);

/// What `serde_json::from_str::<serde_json::Value>` makes of a text: the value
/// it reads, held one for one as a `JsonValue`, or the text of its error.
pub uninterp spec fn json_text_value(text: Seq<char>) -> Result<JsonValue, Seq<char>>;

/// What `serde_json::to_string_pretty` makes of a value, given to it as the
/// `serde_json::Value` that holds the same data: the printed text, or the
/// text of its error. A number whose text `serde_json` does not read as a
/// number gives no such `Value`: the result is then the text of that read's
/// error.
pub uninterp spec fn pretty_json_text(j: JsonValue) -> Result<Seq<char>, Seq<char>>;

/// Holds a `serde_json::Value` one for one as a `JsonValue`: numbers keep
/// their text (`Number`'s `Display`) and `as_i64`, objects their fields in the
/// map's order. Nothing is claimed of the result here; the wrapper
/// `parse_json_text` names what the read and this copy give together.
#[verifier::external_body]
fn json_from_serde(v: &serde_json::Value) -> JsonValue {
    match v {
        serde_json::Value::Null => JsonValue::Null,
        serde_json::Value::Bool(b) => JsonValue::Bool(*b),
        serde_json::Value::Number(n) => JsonValue::Number(JsonNumber { text: n.to_string(), int: n.as_i64() }),
        serde_json::Value::String(s) => JsonValue::String(s.clone()),
        serde_json::Value::Array(a) => JsonValue::Array(a.iter().map(json_from_serde).collect()),
        serde_json::Value::Object(m) => {
            JsonValue::Object(m.iter().map(|(k, x)| (k.clone(), json_from_serde(x))).collect())
        },
    }
}

/// Holds a `JsonValue` one for one as a `serde_json::Value`, each number read
/// back from its text by `serde_json::from_str::<serde_json::Number>`; where
/// that read fails, the result is its error's text. Nothing is claimed of the
/// result here; the wrapper `pretty_json` names what this copy and the
/// printer give together.
#[verifier::external_body]
fn json_to_serde(j: &JsonValue) -> Result<serde_json::Value, String> {
    Ok(match j {
        JsonValue::Null => serde_json::Value::Null,
        JsonValue::Bool(b) => serde_json::Value::Bool(*b),
        JsonValue::Number(n) => serde_json::Value::Number(
            serde_json::from_str(&n.text).map_err(|e: serde_json::Error| e.to_string())?,
        ),
        JsonValue::String(s) => serde_json::Value::String(s.clone()),
        JsonValue::Array(a) => serde_json::Value::Array(a.iter().map(json_to_serde).collect::<Result<_, _>>()?),
        JsonValue::Object(fs) => serde_json::Value::Object(
            fs.iter().map(|(k, x)| Ok((k.clone(), json_to_serde(x)?))).collect::<Result<_, String>>()?,
        ),
    })
}

/// Wraps `serde_json::from_str::<serde_json::Value>`: the result is the value
/// named `json_text_value` of the text, or the error's text (its `Display`).
/// The result depends on the text alone.
#[verifier::external_body]
pub(crate) fn parse_json_text(text: &str) -> (r: Result<JsonValue, String>)
    ensures
        match json_text_value(text@) {
            Ok(j) => r == Ok::<JsonValue, String>(j),
            Err(m) => r matches Err(e) && e@ == m,
        },
{
    match serde_json::from_str::<serde_json::Value>(text) {
        Ok(v) => Ok(json_from_serde(&v)),
        Err(e) => Err(e.to_string()),
    }
}

/// Wraps `serde_json::to_string_pretty`: the result is the text named
/// `pretty_json_text` of the value, or the error's text (its `Display`). The
/// result depends on the value alone.
#[verifier::external_body]
pub(crate) fn pretty_json(j: &JsonValue) -> (r: Result<String, String>)
    ensures
        match pretty_json_text(*j) {
            Ok(t) => r matches Ok(s) && s@ == t,
            Err(m) => r matches Err(e) && e@ == m,
        },
{
    match json_to_serde(j) {
        Ok(v) => match serde_json::to_string_pretty(&v) {
            Ok(s) => Ok(s),
            Err(e) => Err(e.to_string()),
        },
        Err(m) => Err(m),
    }
}

} // verus!
