use vstd::prelude::*;
use crate::errors::MarvelError;

verus! {

/// A JSON document as plain values the verified code can read.  Numbers that
/// fit `i64` are held exactly; any other number is marked and carries
/// nothing, since no field this client reads holds one.
pub enum JsonValue {
    Null,
    Bool(bool),
    Int(i64),
    /// A number that does not fit `i64`: fractional, or out of range.
    OtherNumber,
    Str(String),
    Arr(Vec<JsonValue>),
    Obj(Vec<(String, JsonValue)>),
}

#[verifier::external_type_specification]
#[verifier::external_body]
pub struct ExValue(serde_json::Value);

/// What parsing a piece of text as one JSON document yields; named, not
/// spelled out.  The result depends on the text alone, so two parses of the
/// same body always agree.
pub uninterp spec fn json_of(s: Seq<char>) -> Option<JsonValue>;

/// Relies on the shape of serde_json's `Value` alone: each variant moves into
/// the matching `JsonValue` variant, numbers through `Number::as_i64`.
#[verifier::external_body]
fn value_to_json(v: serde_json::Value) -> JsonValue {
    match v {
        serde_json::Value::Null => JsonValue::Null,
        serde_json::Value::Bool(b) => JsonValue::Bool(b),
        serde_json::Value::Number(n) => match n.as_i64() {
            Some(i) => JsonValue::Int(i),
            None => JsonValue::OtherNumber,
        },
        serde_json::Value::String(s) => JsonValue::Str(s),
        serde_json::Value::Array(a) => JsonValue::Arr(a.into_iter().map(value_to_json).collect()),
        serde_json::Value::Object(m) => JsonValue::Obj(
            m.into_iter().map(|(k, x)| (k, value_to_json(x))).collect(),
        ),
    }
}

/// Relies on serde_json's `from_str`: the text is parsed as one JSON
/// document, or refused, and the outcome is a function of the text alone.
/// Nothing is assumed of the document's shape; the verified decoders take
/// the value however it comes.
#[verifier::external_body]
fn parse_json_text(s: &str) -> (r: Option<JsonValue>)
    ensures
        r == json_of(s@),
{
    match serde_json::from_str::<serde_json::Value>(s) {
        Ok(v) => Some(value_to_json(v)),
        Err(_) => None,
    }
}

/// One response body, parsed; a body that is not JSON is a `DecodeError`.
pub fn parse_response(body: &str) -> (r: Result<JsonValue, MarvelError>)
    ensures
        (r is Ok) <==> (json_of(body@) is Some),
        r matches Ok(v) ==> json_of(body@) == Some(v),
        r matches Err(e) ==> e is DecodeError,
{
    match parse_json_text(body) {
        Some(v) => Ok(v),
        None => Err(MarvelError::DecodeError),
    }
}

} // verus!
