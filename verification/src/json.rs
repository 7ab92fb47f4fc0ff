//! A JSON document as plain values, read with serde_json, and the lookups that
//! the map loader makes in it.
use vstd::prelude::*;

verus! {

broadcast use vstd::string::group_string_axioms;

/// A JSON number as the loader reads it: its value as an `i64` and as a `u64`,
/// where it is an integer that fits.
#[derive(Debug, Clone, Copy)]
pub struct JsonNumber {
    pub as_i64: Option<i64>,
    pub as_u64: Option<u64>,
}

/// A JSON value. An object keeps its entries in the order serde_json walks
/// them, one entry per key.
#[derive(Debug)]
pub enum JsonValue {
    Null,
    Bool(bool),
    Number(JsonNumber),
    Str(String),
    Array(Vec<JsonValue>),
    Object(Vec<(String, JsonValue)>),
}

#[verifier::external_type_specification]
#[verifier::external_body]
pub struct ExJsonError(serde_json::Error);

#[verifier::external_type_specification]
#[verifier::external_body]
pub struct ExJsonValue(serde_json::Value);

/// What serde_json reads from a text, as a `JsonValue`; `None` where the text
/// is not a JSON document.
pub uninterp spec fn json_parse(text: Seq<char>) -> Option<JsonValue>;

/// Calls `serde_json::from_str::<serde_json::Value>` on `text` and converts the
/// value it reads into a `JsonValue`. The claim: the outcome is a function of
/// the text alone (`json_parse`), an error exactly where that function gives
/// no value. What the document holds is not stated.
#[verifier::external_body]
pub(crate) fn parse_json(text: &str) -> (res: Result<JsonValue, serde_json::Error>)
    ensures
        match res {
            Ok(v) => json_parse(text@) == Some(v),
            Err(_) => json_parse(text@) is None,
        },
{
    match serde_json::from_str::<serde_json::Value>(text) {
        Ok(v) => Ok(json_value_of(v)),
        Err(e) => Err(e),
    }
}

/// Converts a `serde_json::Value` into a `JsonValue`, variant for variant;
/// a number keeps what `serde_json::Number::as_i64` and `as_u64` give. Only
/// `parse_json` calls it; nothing is claimed of it beyond its type.
#[verifier::external_body]
fn json_value_of(v: serde_json::Value) -> JsonValue {
    match v {
        serde_json::Value::Null => JsonValue::Null,
        serde_json::Value::Bool(b) => JsonValue::Bool(b),
        serde_json::Value::Number(n) => JsonValue::Number(
            JsonNumber { as_i64: n.as_i64(), as_u64: n.as_u64() },
        ),
        serde_json::Value::String(s) => JsonValue::Str(s),
        serde_json::Value::Array(a) => JsonValue::Array(a.into_iter().map(json_value_of).collect()),
        serde_json::Value::Object(m) => JsonValue::Object(
            m.into_iter().map(|(k, x)| (k, json_value_of(x))).collect(),
        ),
    }
}

/// The value under `key` among the entries of an object, looked up from entry
/// `i` on: the first entry with that key.
pub open spec fn entry_lookup(entries: Seq<(String, JsonValue)>, key: Seq<char>, i: int) -> Option<
    JsonValue,
>
    decreases entries.len() - i,
{
    if i < 0 || i >= entries.len() {
        None
    } else if entries[i].0@ == key {
        Some(entries[i].1)
    } else {
        entry_lookup(entries, key, i + 1)
    }
}

/// The value under `key` in an object; `None` for a missing key or a value
/// that is not an object.
pub open spec fn spec_get(v: JsonValue, key: Seq<char>) -> Option<JsonValue> {
    match v {
        JsonValue::Object(entries) => entry_lookup(entries@, key, 0),
        _ => None,
    }
}

/// A number that is an `i64`.
pub open spec fn spec_as_i64(v: JsonValue) -> Option<i64> {
    match v {
        JsonValue::Number(n) => n.as_i64,
        _ => None,
    }
}

/// A number that is a `u64`.
pub open spec fn spec_as_u64(v: JsonValue) -> Option<u64> {
    match v {
        JsonValue::Number(n) => n.as_u64,
        _ => None,
    }
}

/// The items of an array.
pub open spec fn spec_as_array(v: JsonValue) -> Option<Seq<JsonValue>> {
    match v {
        JsonValue::Array(items) => Some(items@),
        _ => None,
    }
}

/// The value under `key` in an object.
pub fn get<'a>(v: &'a JsonValue, key: &str) -> (res: Option<&'a JsonValue>)
    ensures
        match res {
            Some(r) => spec_get(*v, key@) == Some(*r),
            None => spec_get(*v, key@) is None,
        },
{
    match v {
        JsonValue::Object(entries) => {
            let wanted = key.to_string();
            let mut i: usize = 0;
            while i < entries.len()
                invariant
                    wanted@ == key@,
                    spec_get(*v, key@) == entry_lookup(entries@, key@, 0),
                    i <= entries@.len(),
                    entry_lookup(entries@, key@, 0) == entry_lookup(entries@, key@, i as int),
                decreases entries@.len() - i,
            {
                if entries[i].0 == wanted {
                    assert(entries@[i as int].0@ == key@);
                    assert(entry_lookup(entries@, key@, i as int) == Some(entries@[i as int].1));
                    return Some(&entries[i].1);
                }
                i += 1;
            }
            None
        },
        _ => None,
    }
}

/// A number that is an `i64`.
pub fn as_i64(v: &JsonValue) -> (res: Option<i64>)
    ensures
        res == spec_as_i64(*v),
{
    match v {
        JsonValue::Number(n) => n.as_i64,
        _ => None,
    }
}

/// A number that is a `u64`.
pub fn as_u64(v: &JsonValue) -> (res: Option<u64>)
    ensures
        res == spec_as_u64(*v),
{
    match v {
        JsonValue::Number(n) => n.as_u64,
        _ => None,
    }
}

/// The items of an array.
pub fn as_array(v: &JsonValue) -> (res: Option<&Vec<JsonValue>>)
    ensures
        match res {
            Some(items) => spec_as_array(*v) == Some(items@),
            None => spec_as_array(*v) is None,
        },
{
    match v {
        JsonValue::Array(items) => Some(items),
        _ => None,
    }
}

proof fn lemma_lookup_exact(entries: Seq<(String, JsonValue)>, key: Seq<char>, i: int)
    requires
        0 <= i,
    ensures
        entry_lookup(entries, key, i) matches Some(r) ==> exists|j: int|
            i <= j < entries.len() && (#[trigger] entries[j]).0@ == key && entries[j].1 == r && (
            forall|t: int| i <= t < j ==> (#[trigger] entries[t]).0@ != key),
        entry_lookup(entries, key, i) is None ==> forall|j: int|
            i <= j < entries.len() ==> (#[trigger] entries[j]).0@ != key,
    decreases entries.len() - i,
{
    if i < entries.len() {
        if entries[i].0@ != key {
            lemma_lookup_exact(entries, key, i + 1);
            if let Some(r) = entry_lookup(entries, key, i) {
                let j = choose|j: int|
                    i + 1 <= j < entries.len() && (#[trigger] entries[j]).0@ == key && entries[j].1
                        == r && (forall|t: int| i + 1 <= t < j ==> (#[trigger] entries[t]).0@ != key);
                assert(i <= j < entries.len() && entries[j].0@ == key && entries[j].1 == r && (forall|
                    t: int,
                | i <= t < j ==> (#[trigger] entries[t]).0@ != key));
            }
        } else {
            assert(entries[i].0@ == key);
        }
    }
}

/// Looking a key up matches it exactly: the value found is that of the first
/// entry whose key equals `key` (no earlier entry has that key), and nothing is
/// found only when no entry has that key or the value is not an object.
pub proof fn law_get_matches_key_exactly(v: JsonValue, key: Seq<char>)
    ensures
        match v {
            JsonValue::Object(entries) => {
                &&& spec_get(v, key) matches Some(r) ==> exists|j: int|
                    0 <= j < entries@.len() && (#[trigger] entries@[j]).0@ == key && entries@[j].1
                        == r && (forall|t: int| 0 <= t < j ==> (#[trigger] entries@[t]).0@ != key)
                &&& spec_get(v, key) is None ==> forall|j: int|
                    0 <= j < entries@.len() ==> (#[trigger] entries@[j]).0@ != key
            },
            _ => spec_get(v, key) is None,
        },
{
    if let JsonValue::Object(entries) = v {
        lemma_lookup_exact(entries@, key, 0);
    }
}

} // verus!
