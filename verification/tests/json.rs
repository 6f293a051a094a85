use corr::json::{converts, JsonNumber, JsonValue};
use corr::value::Value;

#[test]
fn should_convert_long() {
    let val = JsonValue::Number(JsonNumber::PosInt(12));
    assert_eq!(Value::from(&val), Value::Long(12))
}

#[test]
fn should_convert_null() {
    let val = JsonValue::Null;
    assert_eq!(Value::from(&val), Value::Null)
}

#[test]
fn converts_scalars() {
    assert_eq!(Value::from(&JsonValue::Bool(true)), Value::Boolean(true));
    assert_eq!(Value::from(&JsonValue::String(format!("hi"))), Value::String(format!("hi")));
    assert_eq!(Value::from(&JsonValue::Number(JsonNumber::NegInt(-5))), Value::Long(-5));
    let bits = 2.5f64.to_bits();
    assert!(matches!(Value::from(&JsonValue::Number(JsonNumber::Float(bits))), Value::Double(b) if b == bits));
    let max = i64::MAX as u64;
    assert!(matches!(Value::from(&JsonValue::Number(JsonNumber::PosInt(max))), Value::Long(i64::MAX)));
}

#[test]
fn converts_arrays_in_order() {
    let doc = JsonValue::Array(vec![
        JsonValue::Number(JsonNumber::PosInt(1)),
        JsonValue::Array(vec![JsonValue::Null]),
    ]);
    match Value::from(&doc) {
        Value::Array(items) => {
            assert_eq!(items.len(), 2);
            assert!(matches!(items[0], Value::Long(1)));
            assert!(matches!(&items[1], Value::Array(inner) if inner.len() == 1 && matches!(inner[0], Value::Null)));
        },
        other => panic!("not an array: {:?}", other),
    }
}

#[test]
fn a_later_member_replaces_an_earlier_one() {
    let doc = JsonValue::Object(vec![
        (format!("a"), JsonValue::Number(JsonNumber::PosInt(1))),
        (format!("b"), JsonValue::Bool(false)),
        (format!("a"), JsonValue::Number(JsonNumber::PosInt(2))),
    ]);
    match Value::from(&doc) {
        Value::Object(entries) => {
            assert_eq!(entries.len(), 2);
            assert_eq!(entries[0].0, "a");
            assert!(matches!(entries[0].1, Value::Long(2)));
            assert_eq!(entries[1].0, "b");
            assert!(matches!(entries[1].1, Value::Boolean(false)));
        },
        other => panic!("not an object: {:?}", other),
    }
}

#[test]
fn an_object_from_json_holds_each_key_once() {
    let doc = JsonValue::Object(vec![
        (format!("k"), JsonValue::Null),
        (format!("k"), JsonValue::Bool(true)),
        (format!("k"), JsonValue::Number(JsonNumber::NegInt(-1))),
    ]);
    match Value::from(&doc) {
        Value::Object(entries) => {
            assert_eq!(entries.len(), 1);
            assert!(matches!(entries[0].1, Value::Long(-1)));
        },
        other => panic!("not an object: {:?}", other),
    }
}

#[test]
fn tells_which_documents_convert() {
    assert!(converts(&JsonValue::Number(JsonNumber::PosInt(i64::MAX as u64))));
    assert!(!converts(&JsonValue::Number(JsonNumber::PosInt(i64::MAX as u64 + 1))));
    assert!(!converts(&JsonValue::Array(vec![JsonValue::Null, JsonValue::Number(JsonNumber::PosInt(u64::MAX))])));
    assert!(!converts(&JsonValue::Object(vec![(format!("k"), JsonValue::Number(JsonNumber::PosInt(u64::MAX)))])));
    assert!(converts(&JsonValue::Object(vec![(format!("k"), JsonValue::Number(JsonNumber::NegInt(-3)))])));
}
