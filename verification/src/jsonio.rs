//! Trusted declarations for reading tool-input JSON through serde_json.
//! The values are opaque; everything the library concludes from them is
//! computed by verified code over the extracted plain strings and booleans.

use vstd::prelude::*;

verus! {

/// serde_json's JSON value, carried opaquely.
#[verifier::external_type_specification]
#[verifier::external_body]
pub struct ExValue(serde_json::Value);

/// Relies on serde_json::Value::get: looks a key up in a JSON object;
/// absent keys yield nothing.
#[verifier::external_body]
fn value_get<'a>(v: &'a serde_json::Value, key: &str) -> (r: Option<&'a serde_json::Value>) {
    v.get(key)
}

/// Relies on serde_json::Value::as_str: the string slice behind a JSON
/// string value, or nothing for any other kind of value.
pub assume_specification[ serde_json::Value::as_str ](v: &serde_json::Value) -> Option<&str>;

/// Relies on serde_json::Value::as_bool: the boolean behind a JSON bool.
pub assume_specification[ serde_json::Value::as_bool ](v: &serde_json::Value) -> Option<bool>;

/// Relies on serde_json::from_str: parses a JSON document or fails; which
/// of the two happens is settled by the input text alone, but nothing about
/// the opaque value is assumed.
#[verifier::external_body]
pub fn parse_json(s: &str) -> (r: Option<serde_json::Value>) {
    serde_json::from_str::<serde_json::Value>(s).ok()
}

/// Read a string field of a JSON object, owned.
pub fn field_str(v: &serde_json::Value, key: &str) -> (r: Option<String>) {
    match value_get(v, key) {
        Some(x) => match x.as_str() {
            Some(s) => Some(s.to_owned()),
            None => None,
        },
        None => None,
    }
}

/// Read a boolean field of a JSON object.
pub fn field_bool(v: &serde_json::Value, key: &str) -> (r: Option<bool>) {
    match value_get(v, key) {
        Some(x) => x.as_bool(),
        None => None,
    }
}

} // verus!
