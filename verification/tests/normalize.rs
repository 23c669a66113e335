//! Canonical arguments.

use halter_goals::tier1::{normalize_args, Json};
use halter_goals::types::{CanonicalJson, ToolName};
use serde_json::Value;

fn tool() -> ToolName {
    ToolName::from("read_file")
}

/// The value as the library holds it.
fn json(v: &Value) -> Json {
    match v {
        Value::Null => Json::Null,
        Value::Bool(b) => Json::Bool(*b),
        Value::Number(n) => {
            if let Some(u) = n.as_u64() {
                Json::Unsigned(u)
            } else if let Some(i) = n.as_i64() {
                Json::Negative(i)
            } else {
                let f: f64 = n.as_f64().expect("a number");
                Json::Real { bits: f.to_bits(), text: format!("{f}") }
            }
        }
        Value::String(s) => Json::Text(s.clone()),
        Value::Array(items) => Json::Array(items.iter().map(json).collect()),
        Value::Object(members) => {
            Json::Object(members.iter().map(|(k, v)| (k.clone(), json(v))).collect())
        }
    }
}

fn parse(text: &str) -> Value {
    serde_json::from_str(text).expect("valid JSON")
}

fn norm(text: &str) -> CanonicalJson {
    normalize_args(&tool(), &json(&parse(text))).expect("value should canonicalize")
}

#[test]
fn object_key_order_is_irrelevant() {
    assert_eq!(norm(r#"{ "a": 1, "b": 2 }"#), norm(r#"{ "b": 2, "a": 1 }"#));
}

#[test]
fn nested_object_keys_are_sorted_recursively() {
    let out = norm(r#"{ "outer": { "z": 1, "a": 2 }, "first": true }"#);
    assert_eq!(out.0, r#"{"first":true,"outer":{"a":2,"z":1}}"#);
}

#[test]
fn whitespace_is_insignificant() {
    assert_eq!(norm("{ \"a\" :   1 ,\n\"b\": 2 }"), norm("{\"a\":1,\"b\":2}"));
}

#[test]
fn equivalent_number_encodings_fold() {
    assert_eq!(norm("1"), norm("1.0"));
    assert_eq!(norm("1"), norm("1e0"));
    assert_eq!(norm("2.0").0, "2");
}

#[test]
fn logically_distinct_args_differ() {
    assert_ne!(norm(r#"{ "a": 1 }"#), norm(r#"{ "a": 2 }"#));
    assert_ne!(norm("[1, 2]"), norm("[2, 1]"));
    assert_ne!(norm(r#"{ "a": 1 }"#), norm(r#"{ "b": 1 }"#));
}

#[test]
fn repeated_invocations_are_byte_identical() {
    let v = r#"{ "b": [3, 2, 1], "a": { "y": 1, "x": 2 } }"#;
    assert_eq!(norm(v).0, norm(v).0);
}

#[test]
fn deterministic_across_fresh_values() {
    let first = norm(r#"{ "z": 26, "a": 1 }"#);
    let second = norm(r#"{ "a": 1, "z": 26 }"#);
    assert_eq!(first.0, second.0);
    assert_eq!(first.0, r#"{"a":1,"z":26}"#);
}

#[test]
fn scalar_types_round_trip() {
    assert_eq!(norm("null").0, "null");
    assert_eq!(norm("true").0, "true");
    assert_eq!(norm("\"hi\"").0, "\"hi\"");
    assert_eq!(norm("-5").0, "-5");
}

#[test]
fn large_integers_preserved() {
    assert_eq!(norm("9007199254740993").0, "9007199254740993");
}
