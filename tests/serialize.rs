use rust_utils::{serialize_structured_value, to_yaml_value, SerializationError, StructuredValue};
use serde_yaml::{Mapping, Value};

fn text(s: &str) -> String {
    s.to_string()
}

#[test]
fn mapping_with_float_scenario() {
    let v = StructuredValue::Mapping(vec![
        (text("a"), StructuredValue::Integer(1)),
        (
            text("b"),
            StructuredValue::Sequence(vec![
                StructuredValue::Boolean(true),
                StructuredValue::FloatingPoint(2.5f64.to_string()),
            ]),
        ),
    ]);
    let out = serialize_structured_value(&v).unwrap();
    let parsed: Value = serde_yaml::from_str(&out).unwrap();
    let mut expected = Mapping::new();
    expected.insert(Value::String(text("a")), Value::Number(1.into()));
    expected.insert(
        Value::String(text("b")),
        Value::Sequence(vec![Value::Bool(true), Value::String(text("2.5"))]),
    );
    assert_eq!(parsed, Value::Mapping(expected));
    assert!(out.contains("'2.5'") || out.contains("\"2.5\""));
}

#[test]
fn round_trip_without_floats() {
    let v = StructuredValue::Mapping(vec![
        (text("zeta"), StructuredValue::Integer(-42)),
        (text("alpha"), StructuredValue::Text(text("hello: world"))),
        (
            text("list"),
            StructuredValue::Sequence(vec![
                StructuredValue::Boolean(false),
                StructuredValue::Integer(i64::MAX),
                StructuredValue::Mapping(vec![(text("inner"), StructuredValue::Text(text("true")))]),
            ]),
        ),
    ]);
    let out = serialize_structured_value(&v).unwrap();
    let parsed: Value = serde_yaml::from_str(&out).unwrap();
    let keys: Vec<String> = parsed
        .as_mapping()
        .unwrap()
        .keys()
        .map(|k| k.as_str().unwrap().to_string())
        .collect();
    assert_eq!(keys, vec![text("zeta"), text("alpha"), text("list")]);
    assert_eq!(parsed, to_yaml_value(&v));
    assert_eq!(parsed["alpha"], Value::String(text("hello: world")));
    assert_eq!(parsed["list"][2]["inner"], Value::String(text("true")));
}

#[test]
fn floats_become_text_literals() {
    for f in [2.5f64, -0.125, 1e21, f64::INFINITY, f64::NEG_INFINITY, f64::NAN, 3.0] {
        let rendering = f.to_string();
        let v = StructuredValue::Sequence(vec![StructuredValue::FloatingPoint(rendering.clone())]);
        let out = serialize_structured_value(&v).unwrap();
        let parsed: Value = serde_yaml::from_str(&out).unwrap();
        assert_eq!(parsed, Value::Sequence(vec![Value::String(rendering)]));
    }
}

#[test]
fn absent_becomes_null() {
    let v = StructuredValue::Mapping(vec![(text("x"), StructuredValue::Absent)]);
    let out = serialize_structured_value(&v).unwrap();
    let parsed: Value = serde_yaml::from_str(&out).unwrap();
    assert_eq!(parsed["x"], Value::Null);
}

#[test]
fn empty_containers() {
    let out = serialize_structured_value(&StructuredValue::Mapping(vec![])).unwrap();
    let parsed: Value = serde_yaml::from_str(&out).unwrap();
    assert_eq!(parsed, Value::Mapping(Mapping::new()));
    let out = serialize_structured_value(&StructuredValue::Sequence(vec![])).unwrap();
    let parsed: Value = serde_yaml::from_str(&out).unwrap();
    assert_eq!(parsed, Value::Sequence(vec![]));
}

#[test]
fn duplicate_key_refused() {
    let v = StructuredValue::Sequence(vec![StructuredValue::Mapping(vec![
        (text("k"), StructuredValue::Integer(1)),
        (text("k"), StructuredValue::Integer(2)),
    ])]);
    assert_eq!(
        serialize_structured_value(&v),
        Err(SerializationError::DuplicateKey(text("k")))
    );
    assert_eq!(v.duplicate_key(), Some(text("k")));
}

#[test]
fn integer_becomes_number() {
    let t = to_yaml_value(&StructuredValue::Integer(-7));
    assert_eq!(t, Value::Number((-7i64).into()));
    assert_eq!(t.as_i64(), Some(-7));
}

#[test]
fn text_keeps_its_string() {
    let t = to_yaml_value(&StructuredValue::Text(text("yes")));
    assert_eq!(t, Value::String(text("yes")));
    let out = serialize_structured_value(&StructuredValue::Text(text("yes"))).unwrap();
    let parsed: Value = serde_yaml::from_str(&out).unwrap();
    assert_eq!(parsed, Value::String(text("yes")));
}

#[test]
fn nested_float_becomes_text_literal() {
    let v = StructuredValue::Mapping(vec![(
        text("outer"),
        StructuredValue::Sequence(vec![StructuredValue::Mapping(vec![(
            text("x"),
            StructuredValue::FloatingPoint((-0.5f64).to_string()),
        )])]),
    )]);
    let out = serialize_structured_value(&v).unwrap();
    let parsed: Value = serde_yaml::from_str(&out).unwrap();
    assert_eq!(parsed["outer"][0]["x"], Value::String(text("-0.5")));
}
