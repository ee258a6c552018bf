//! The JSON text of a document, written and read by `serde_json`.

use vstd::prelude::*;
use crate::errors::OsunbitDBError;
use crate::json::{Json, JsonObject, JsonValue};
use serde_json::{Number, Value};

verus! {

/// `serde_json::Error`. The library hands it on inside
/// `OsunbitDBError::Serialization` and never looks into it.
#[verifier::external_type_specification]
#[verifier::external_body]
pub struct ExSerdeError(serde_json::Error);

/// `serde_json::Value`, the tree that `serde_json` writes a text from and
/// reads a text into. The library only passes it between the functions below.
#[verifier::external_type_specification]
#[verifier::external_body]
pub struct ExSerdeValue(serde_json::Value);

/// The bytes that `serde_json::to_vec` writes for a document, or `None` where
/// it reports an error.
pub uninterp spec fn json_text(doc: JsonValue) -> Option<Seq<u8>>;

/// The document that `serde_json::from_slice` reads from a text, or `None`
/// where it rejects the text.
pub uninterp spec fn json_parse(text: Seq<u8>) -> Option<JsonValue>;

/// Builds the `serde_json::Value` that stands for a document, node by node.
/// The text of a `Float` is read by `str::parse` and handed to
/// `serde_json::Number::from_f64`; where either refuses it the node is `null`,
/// which is what `serde_json` makes of a number that is not finite. Nothing
/// is claimed of the result.
#[verifier::external_body]
fn export_value(doc: &Json) -> Value {
    match doc {
        Json::Null => Value::Null,
        Json::Bool(b) => Value::Bool(*b),
        Json::Int(i) => Value::from(*i),
        Json::UInt(u) => Value::from(*u),
        Json::Float(text) => {
            text.parse().ok().and_then(Number::from_f64).map_or(Value::Null, Value::Number)
        },
        Json::String(s) => Value::String(s.clone()),
        Json::Array(items) => Value::Array(items.iter().map(export_value).collect()),
        Json::Object(o) => Value::Object(
            (0..o.len()).map(|i| (o.key_at(i).to_string(), export_value(o.value_at(i)))).collect(),
        ),
    }
}

/// Builds the document that a `serde_json::Value` stands for, node by node.
/// A number is an `Int` where `Number::as_i64` gives one, a `UInt` where only
/// `Number::as_u64` does, and else a `Float` with the text that the number's
/// `to_string` gives. The contract claims that the result is well formed:
/// objects are filled through `JsonObject::insert`, and a number that
/// `as_i64` refuses and `as_u64` gives lies above `i64::MAX`.
#[verifier::external_body]
fn import_value(value: Value) -> (doc: Json)
    ensures
        doc.wf(),
{
    match value {
        Value::Null => Json::Null,
        Value::Bool(b) => Json::Bool(b),
        Value::Number(n) => match (n.as_i64(), n.as_u64()) {
            (Some(i), _) => Json::Int(i),
            (_, Some(u)) => Json::UInt(u),
            _ => Json::Float(n.to_string()),
        },
        Value::String(s) => Json::String(s),
        Value::Array(items) => Json::Array(items.into_iter().map(import_value).collect()),
        Value::Object(members) => {
            Json::Object(members.into_iter().fold(JsonObject::new(), with_member))
        },
    }
}

/// `serde_json::to_vec`, called on the value that stands for `doc`. The
/// contract claims that the outcome depends on the document's value alone,
/// and gives it the name `json_text`: `serde_json` keeps the members of an
/// object sorted by key, whatever the order in which they were put.
#[verifier::external_body]
fn to_vec(doc: &Json) -> (text: Result<Vec<u8>, serde_json::Error>)
    requires
        doc.wf(),
    ensures
        match text {
            Ok(bytes) => json_text(doc@) == Some(bytes@),
            Err(_) => json_text(doc@) is None,
        },
{
    serde_json::to_vec(&export_value(doc))
}

/// `serde_json::from_slice`, called for a `serde_json::Value`, with the
/// document that the value stands for as the result. The contract claims
/// that the outcome depends on the bytes alone, and gives it the name
/// `json_parse`, and that a document that was read is well formed.
#[verifier::external_body]
fn from_slice(text: &[u8]) -> (doc: Result<Json, serde_json::Error>)
    ensures
        match doc {
            Ok(d) => json_parse(text@) == Some(d@) && d.wf(),
            Err(_) => json_parse(text@) is None,
        },
{
    serde_json::from_slice::<Value>(text).map(import_value)
}

/// The object with one more member, read from a `serde_json` map.
fn with_member(object: JsonObject, member: (String, Value)) -> (extended: JsonObject)
    requires
        object.wf(),
    ensures
        extended.wf(),
        extended@ == object@.insert(member.0@, extended@[member.0@]),
        extended.keys() == if object@.contains_key(member.0@) {
            object.keys()
        } else {
            object.keys().push(member.0@)
        },
{
    let mut extended = object;
    extended.insert(member.0, import_value(member.1));
    extended
}

/// What a stored text stands for when a text that is no JSON counts as `null`.
pub open spec fn lenient_parse(text: Seq<u8>) -> JsonValue {
    match json_parse(text) {
        Some(doc) => doc,
        None => JsonValue::Null,
    }
}

/// The bytes under which a document is stored: its JSON text.
pub fn encode_document(doc: &Json) -> (stored: Result<Vec<u8>, OsunbitDBError>)
    requires
        doc.wf(),
    ensures
        match stored {
            Ok(bytes) => json_text(doc@) == Some(bytes@),
            Err(e) => json_text(doc@) is None && e is Serialization,
        },
{
    match to_vec(doc) {
        Ok(bytes) => Ok(bytes),
        Err(e) => Err(OsunbitDBError::Serialization(e)),
    }
}

/// The document that stored bytes hold.
pub fn decode_document(stored: &[u8]) -> (doc: Result<Json, OsunbitDBError>)
    ensures
        match doc {
            Ok(d) => json_parse(stored@) == Some(d@) && d.wf(),
            Err(e) => json_parse(stored@) is None && e is Serialization,
        },
{
    match from_slice(stored) {
        Ok(d) => Ok(d),
        Err(e) => Err(OsunbitDBError::Serialization(e)),
    }
}

/// The document that stored bytes hold, with `null` for bytes that are no
/// JSON text: one malformed entry does not fail a whole page.
pub fn decode_or_null(stored: &[u8]) -> (doc: Json)
    ensures
        doc@ == lenient_parse(stored@),
        doc.wf(),
{
    match from_slice(stored) {
        Ok(d) => d,
        Err(_) => Json::Null,
    }
}

} // verus!
