use agent_first_config::error::ConfigError;
use agent_first_config::traverse::{get_path, remove_path, set_path};
use agent_first_config::value::Value;

fn make_test_object() -> Value {
    let mut root = Value::Object(Default::default());
    let mut imap = Value::Object(Default::default());
    imap.as_object_mut().unwrap().insert(
        "host".to_string(),
        Value::String("mail.example.com".to_string()),
    );
    imap.as_object_mut()
        .unwrap()
        .insert("port".to_string(), Value::Integer(993));

    root.as_object_mut()
        .unwrap()
        .insert("imap".to_string(), imap);

    root
}

#[test]
fn test_get_path_simple() {
    let root = make_test_object();
    let result = get_path(&root, "imap.host", &[]).unwrap();
    assert_eq!(result.as_str().unwrap(), "mail.example.com");
}

#[test]
fn test_get_path_integer() {
    let root = make_test_object();
    let result = get_path(&root, "imap.port", &[]).unwrap();
    assert_eq!(result.as_integer().unwrap(), 993);
}

#[test]
fn test_set_path_new_key() {
    let mut root = make_test_object();
    set_path(&mut root, "imap.tls", &["true".to_string()], &[]).unwrap();

    let result = get_path(&root, "imap.tls", &[]).unwrap();
    assert_eq!(result.as_bool().unwrap(), true);
}

#[test]
fn test_set_path_overwrite() {
    let mut root = make_test_object();
    set_path(&mut root, "imap.port", &["587".to_string()], &[]).unwrap();

    let result = get_path(&root, "imap.port", &[]).unwrap();
    assert_eq!(result.as_integer().unwrap(), 587);
}

#[test]
fn test_set_path_array_value() {
    let mut root = Value::Object(Default::default());
    set_path(
        &mut root,
        "tags",
        &["dev".to_string(), "staging".to_string()],
        &[],
    )
    .unwrap();

    let result = get_path(&root, "tags", &[]).unwrap();
    let arr = result.as_array().unwrap();
    assert_eq!(arr.len(), 2);
}

fn make_steps_object() -> Value {
    let mut root = Value::Object(Default::default());
    let mut s0 = Value::Object(Default::default());
    s0.as_object_mut()
        .unwrap()
        .insert("name".to_string(), Value::String("a".to_string()));
    s0.as_object_mut()
        .unwrap()
        .insert("port".to_string(), Value::Integer(1));
    let mut s1 = Value::Object(Default::default());
    s1.as_object_mut()
        .unwrap()
        .insert("name".to_string(), Value::String("b".to_string()));
    s1.as_object_mut()
        .unwrap()
        .insert("port".to_string(), Value::Integer(2));
    root.as_object_mut()
        .unwrap()
        .insert("steps".to_string(), Value::Array(vec![s0, s1]));
    root
}

#[test]
fn test_get_path_numeric_index() {
    let root = make_steps_object();
    let name = get_path(&root, "steps.0.name", &[]).unwrap();
    assert_eq!(name.as_str().unwrap(), "a");
    let port = get_path(&root, "steps.1.port", &[]).unwrap();
    assert_eq!(port.as_integer().unwrap(), 2);
}

#[test]
fn test_set_path_numeric_index() {
    let mut root = make_steps_object();
    set_path(&mut root, "steps.0.port", &["99".to_string()], &[]).unwrap();
    let result = get_path(&root, "steps.0.port", &[]).unwrap();
    assert_eq!(result.as_integer().unwrap(), 99);
    let other = get_path(&root, "steps.1.port", &[]).unwrap();
    assert_eq!(other.as_integer().unwrap(), 2);
}

#[test]
fn test_get_path_index_out_of_bounds() {
    let root = make_steps_object();
    let err = get_path(&root, "steps.5.name", &[]).unwrap_err();
    assert!(matches!(
        err,
        ConfigError::IndexOutOfBounds {
            index: 5,
            len: 2,
            ..
        }
    ));
}

#[test]
fn test_remove_path_numeric_index() {
    let mut root = make_steps_object();
    remove_path(&mut root, "steps.0").unwrap();
    let arr = get_path(&root, "steps", &[]).unwrap();
    let arr = arr.as_array().unwrap();
    assert_eq!(arr.len(), 1);
    assert_eq!(arr[0].get("name").unwrap().as_str().unwrap(), "b");
}
