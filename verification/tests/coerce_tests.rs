use agent_first_config::coerce::{coerce_scalar, coerce_values};
use agent_first_config::value::Value;

#[test]
fn test_coerce_null() {
    assert_eq!(coerce_scalar("null"), Value::Null);
    assert_eq!(coerce_scalar("NULL"), Value::Null);
}

#[test]
fn test_coerce_bool() {
    assert_eq!(coerce_scalar("true"), Value::Bool(true));
    assert_eq!(coerce_scalar("false"), Value::Bool(false));
    assert_eq!(coerce_scalar("TRUE"), Value::Bool(true));
}

#[test]
fn test_coerce_integer() {
    assert_eq!(coerce_scalar("42"), Value::Integer(42));
    assert_eq!(coerce_scalar("-100"), Value::Integer(-100));
}

#[test]
#[allow(clippy::approx_constant)]
fn test_coerce_float() {
    match coerce_scalar("3.14") {
        Value::Float(f) => assert!((f.parse::<f64>().unwrap() - 3.14).abs() < 0.001),
        _ => panic!("expected float"),
    }
}

#[test]
fn test_coerce_string() {
    assert_eq!(coerce_scalar("hello"), Value::String("hello".to_string()));
}

#[test]
fn test_coerce_explicit_prefix_s() {
    assert_eq!(coerce_scalar("s:true"), Value::String("true".to_string()));
    assert_eq!(coerce_scalar("s:42"), Value::String("42".to_string()));
}

#[test]
fn test_coerce_explicit_prefix_b() {
    assert_eq!(coerce_scalar("b:yes"), Value::Bool(true));
    assert_eq!(coerce_scalar("b:no"), Value::Bool(false));
}

#[test]
fn test_coerce_explicit_prefix_i() {
    assert_eq!(coerce_scalar("i:999"), Value::Integer(999));
}

#[test]
fn test_coerce_values_single() {
    let result = coerce_values(&["42".to_string()]).unwrap();
    assert_eq!(result, Value::Integer(42));
}

#[test]
fn test_coerce_values_multiple() {
    let result =
        coerce_values(&["dev".to_string(), "staging".to_string(), "prod".to_string()]).unwrap();
    match result {
        Value::Array(arr) => {
            assert_eq!(arr.len(), 3);
            assert_eq!(arr[0], Value::String("dev".to_string()));
        }
        _ => panic!("expected array"),
    }
}

#[test]
fn test_coerce_values_empty_error() {
    assert!(coerce_values(&[]).is_err());
}
