use corr::path::break_on;
use corr::text::{is_float_literal, parse_bool, parse_i64};
use corr::value::{doubles_equal, RawVariableValue, Value, VarType};

fn raw(value: Option<&str>, data_type: VarType) -> RawVariableValue {
    RawVariableValue { value: value.map(|v| v.to_string()), name: format!("x"), data_type }
}

#[test]
fn parses_longs_like_std() {
    for s in ["0", "12", "-12", "+7", "9223372036854775807", "-9223372036854775808", "", "-", "+", "1a", " 1", "9223372036854775808", "-9223372036854775809", "00012", "99999999999999999999999"] {
        assert_eq!(parse_i64(s), s.parse::<i64>().ok(), "text {:?}", s);
    }
}

#[test]
fn parses_booleans_like_std() {
    for s in ["true", "false", "True", "", "tru", "falsey", " true"] {
        assert_eq!(parse_bool(s), s.parse::<bool>().ok(), "text {:?}", s);
    }
}

#[test]
fn recognises_floats_like_std() {
    for s in ["1", "1.", ".5", "+.5", "-1.5e10", "1E-3", "1e+7", "inf", "-Infinity", "NaN", "nan", "INF", "infinit", ".", "e5", "1e", "1e+", "1.2.3", "1_0", " 1", "", "+", "--1", "1.5e1.0", "infinity", "iNfInItY"] {
        assert_eq!(is_float_literal(s), s.parse::<f64>().is_ok(), "text {:?}", s);
    }
}

#[test]
fn validates_raw_values_by_type() {
    assert!(raw(None, VarType::Long).is_valid());
    assert!(raw(Some("abc"), VarType::String).is_valid());
    assert!(raw(Some("42"), VarType::Long).is_valid());
    assert!(!raw(Some("4.2"), VarType::Long).is_valid());
    assert!(raw(Some("false"), VarType::Boolean).is_valid());
    assert!(!raw(Some("no"), VarType::Boolean).is_valid());
    assert!(raw(Some("4.2"), VarType::Double).is_valid());
    assert!(!raw(Some("four"), VarType::Double).is_valid());
    assert!(!raw(Some("{}"), VarType::Object).is_valid());
    assert!(!raw(Some("[]"), VarType::List).is_valid());
    assert!(!raw(Some("x"), VarType::Reference).is_valid());
}

#[test]
fn converts_raw_values_by_type() {
    assert_eq!(raw(None, VarType::Long).to_value(None), Value::Null);
    assert_eq!(raw(Some("abc"), VarType::String).to_value(None), Value::String(format!("abc")));
    assert_eq!(raw(Some("-42"), VarType::Long).to_value(None), Value::Long(-42));
    assert_eq!(raw(Some("x42"), VarType::Long).to_value(None), Value::Null);
    assert_eq!(raw(Some("true"), VarType::Boolean).to_value(None), Value::Boolean(true));
    let bits = 4.5f64.to_bits();
    assert_eq!(raw(Some("4.5"), VarType::Double).to_value(Some(bits)), Value::Double(bits));
    assert_eq!(raw(Some("4.5x"), VarType::Double).to_value(Some(bits)), Value::Null);
    assert_eq!(raw(Some("4.5"), VarType::Double).to_value(None), Value::Null);
    assert_eq!(raw(Some("{}"), VarType::Object).to_value(None), Value::Null);
}

#[test]
fn compares_doubles_as_ieee() {
    let nan = f64::NAN.to_bits();
    assert!(!doubles_equal(nan, nan));
    assert!(doubles_equal(0.0f64.to_bits(), (-0.0f64).to_bits()));
    assert!(doubles_equal(1.5f64.to_bits(), 1.5f64.to_bits()));
    assert!(!doubles_equal(1.5f64.to_bits(), 2.5f64.to_bits()));
    assert!(Value::Double(nan) != Value::Double(nan));
    assert!(Value::Double(34.0f64.to_bits()) == Value::Double(34.0f64.to_bits()));
}

#[test]
fn compares_objects_as_maps() {
    let a = Value::Object(vec![(format!("x"), Value::Long(1)), (format!("y"), Value::String(format!("s")))]);
    let b = Value::Object(vec![(format!("y"), Value::String(format!("s"))), (format!("x"), Value::Long(1))]);
    let c = Value::Object(vec![(format!("y"), Value::String(format!("s"))), (format!("x"), Value::Long(2))]);
    let d = Value::Object(vec![(format!("x"), Value::Long(1))]);
    assert_eq!(a, b);
    assert!(a != c);
    assert!(a != d);
    assert!(d != a);
}

#[test]
fn compares_other_values() {
    assert_eq!(Value::Null, Value::Null);
    assert!(Value::Null != Value::Long(0));
    assert_eq!(Value::Reference(1), Value::Reference(2));
    assert_eq!(Value::Array(vec![Value::Long(1), Value::Boolean(true)]), Value::Array(vec![Value::Long(1), Value::Boolean(true)]));
    assert!(Value::Array(vec![Value::Long(1)]) != Value::Array(vec![Value::Long(1), Value::Long(1)]));
    assert!(Value::String(format!("a")) != Value::String(format!("b")));
}

#[test]
fn clones_deeply() {
    let v = Value::Object(vec![(format!("list"), Value::Array(vec![Value::Long(3), Value::Null]))]);
    assert_eq!(v.clone(), v);
}

#[test]
fn names_types_of_values() {
    assert_eq!(Value::String(format!("a")).get_associated_var_type(), Some(VarType::String));
    assert_eq!(Value::Long(1).get_associated_var_type(), Some(VarType::Long));
    assert_eq!(Value::Boolean(true).get_associated_var_type(), Some(VarType::Boolean));
    assert_eq!(Value::Double(0).get_associated_var_type(), Some(VarType::Double));
    assert_eq!(Value::Object(vec![]).get_associated_var_type(), Some(VarType::Object));
    assert_eq!(Value::Array(vec![]).get_associated_var_type(), Some(VarType::List));
    assert_eq!(Value::Reference(0).get_associated_var_type(), Some(VarType::Reference));
    assert_eq!(Value::Null.get_associated_var_type(), None);
}

#[test]
fn breaks_paths_at_the_last_dot() {
    assert_eq!(break_on("hobby.categories.size", '.'), Some((format!("hobby.categories"), format!("size"))));
    assert_eq!(break_on("name", '.'), None);
    assert_eq!(break_on("a.", '.'), Some((format!("a"), format!(""))));
}

#[test]
fn equality_holds_both_ways() {
    let a = Value::Object(vec![
        (format!("x"), Value::Array(vec![Value::Double(0.0f64.to_bits())])),
        (format!("y"), Value::Object(vec![(format!("z"), Value::Null)])),
    ]);
    let b = Value::Object(vec![
        (format!("y"), Value::Object(vec![(format!("z"), Value::Null)])),
        (format!("x"), Value::Array(vec![Value::Double((-0.0f64).to_bits())])),
    ]);
    assert_eq!(a, b);
    assert_eq!(b, a);
    assert_eq!(a, a);
}

#[test]
fn repeated_keys_compare_both_ways() {
    let a = Value::Object(vec![(format!("a"), Value::Long(1)), (format!("a"), Value::Long(1))]);
    let b = Value::Object(vec![(format!("a"), Value::Long(1)), (format!("b"), Value::Long(2))]);
    assert!(a != b);
    assert!(b != a);
}
