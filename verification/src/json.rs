//! JSON documents built with `serde_json`, and what they hold as values.
use vstd::prelude::*;
use serde_json::{Map as JsonMap, Value};

verus! {

/// A JSON document as a value: numbers, strings and objects, which is all
/// the canonical encodings here use. An object is a map from key to value;
/// `serde_json` keeps its keys sorted, so the order they were inserted in
/// does not matter.
pub enum Json {
    Num(nat),
    Str(Seq<char>),
    Obj(Map<Seq<char>, Json>),
}

#[verifier::external_type_specification]
#[verifier::external_body]
pub struct ExJsonValue(Value);

#[verifier::external_type_specification]
#[verifier::external_body]
#[verifier::reject_recursive_types(K)]
#[verifier::reject_recursive_types(V)]
pub struct ExJsonMap<K, V>(JsonMap<K, V>);

/// The document a `serde_json::Value` holds.
pub uninterp spec fn json_value(v: Value) -> Json;

/// The key-value pairs a `serde_json::Map` holds.
pub uninterp spec fn json_entries(m: JsonMap<String, Value>) -> Map<Seq<char>, Json>;

/// The bytes `serde_json::to_vec` writes for a document (compact, object
/// keys in sorted order, strings escaped).
pub uninterp spec fn json_text(j: Json) -> Seq<u8>;

/// `serde_json::Value::from(u64)`: trusted to give the JSON number `n`.
#[verifier::external_body]
pub(crate) fn json_number(n: u64) -> (r: Value)
    ensures
        json_value(r) == Json::Num(n as nat),
{
    Value::from(n)
}

/// `serde_json::Value::from(String)`: trusted to give the JSON string `s`.
#[verifier::external_body]
pub(crate) fn json_string(s: String) -> (r: Value)
    ensures
        json_value(r) == Json::Str(s@),
{
    Value::from(s)
}

/// `serde_json::Map::new`: trusted to give an object with no keys.
#[verifier::external_body]
pub(crate) fn json_map_new() -> (made: JsonMap<String, Value>)
    ensures
        json_entries(made).is_empty(),
{
    JsonMap::new()
}

/// `serde_json::Map::insert`: trusted to map `k` to `v`, replacing what
/// `k` mapped to before, and to leave every other key as it was. The value
/// it hands back (the one replaced) is dropped.
#[verifier::external_body]
pub(crate) fn json_map_insert(m: &mut JsonMap<String, Value>, k: String, v: Value)
    ensures
        json_entries(*final(m)) == json_entries(*old(m)).insert(k@, json_value(v)),
{
    m.insert(k, v);
}

/// `serde_json::Value::Object`: trusted to give the object whose pairs are
/// those of `m`.
#[verifier::external_body]
pub(crate) fn json_object(m: JsonMap<String, Value>) -> (r: Value)
    ensures
        json_value(r) == Json::Obj(json_entries(m)),
{
    Value::Object(m)
}

/// `serde_json::to_vec` on a document: trusted to give the bytes named
/// `json_text` of the document it holds. Writing a `Value` into a vector
/// does not fail (its object keys are strings).
#[verifier::external_body]
pub(crate) fn json_to_vec(v: &Value) -> (r: Vec<u8>)
    ensures
        r@ == json_text(json_value(*v)),
{
    serde_json::to_vec(v).unwrap_or_default()
}

} // verus!
