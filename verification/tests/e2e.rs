use agent_first_config::format::Format;
use agent_first_config::keyed::{KeyedList, add_keyed, remove_keyed};
use agent_first_config::traverse::{get_path, set_path};
use agent_first_config::value::{ObjectMap, Value};

#[test]
fn test_keyed_list_add_and_remove() {
    let mut root = Value::Object(ObjectMap::new());

    let keyed_lists = [KeyedList {
        prefix: "identities",
        slug_field: "identity",
    }];

    if let Some(obj) = root.as_object_mut() {
        obj.insert("identities".to_string(), Value::Array(vec![]));
    }

    add_keyed(
        &mut root,
        "identities",
        "alice",
        &keyed_lists,
        None,
        &[
            ("email".to_string(), "alice@example.com".to_string()),
            ("name".to_string(), "Alice".to_string()),
        ],
    )
    .unwrap();

    let alice_email = get_path(&root, "identities.alice.email", &keyed_lists).unwrap();
    assert_eq!(alice_email.as_str().unwrap(), "alice@example.com");

    add_keyed(
        &mut root,
        "identities",
        "bob",
        &keyed_lists,
        None,
        &[("email".to_string(), "bob@example.com".to_string())],
    )
    .unwrap();

    let arr = root.get("identities").unwrap().as_array().unwrap();
    assert_eq!(arr.len(), 2);

    remove_keyed(&mut root, "identities", "alice", &keyed_lists).unwrap();

    let arr = root.get("identities").unwrap().as_array().unwrap();
    assert_eq!(arr.len(), 1);

    let bob_email = get_path(&root, "identities.bob.email", &keyed_lists).unwrap();
    assert_eq!(bob_email.as_str().unwrap(), "bob@example.com");
}

#[test]
fn test_escaped_dotted_key_matching() {
    let json_str = r#"{"actions":{"case.add":{"steps":[{"move":"archive"}]}}}"#;

    let value = Format::Json.load(json_str).unwrap();

    // Dotted keys are addressed explicitly; path resolution is not greedy.
    let steps = get_path(&value, r"actions.case\.add.steps", &[]).unwrap();
    assert!(steps.is_array());
}

#[test]
fn test_escaped_keyed_list_prefix_routes_consistently() {
    let mut inner = ObjectMap::new();
    inner.insert("items".to_string(), Value::Array(vec![]));
    let mut top = ObjectMap::new();
    top.insert("group.list".to_string(), Value::Object(inner));
    let mut root = Value::Object(top);
    let keyed_lists = [KeyedList {
        prefix: r"group\.list.items",
        slug_field: "id",
    }];
    add_keyed(
        &mut root,
        r"group\.list.items",
        "one",
        &keyed_lists,
        None,
        &[("name".to_string(), "first".to_string())],
    )
    .unwrap();
    assert_eq!(
        get_path(&root, r"group\.list.items.one.name", &keyed_lists)
            .unwrap()
            .as_str(),
        Some("first")
    );
    set_path(
        &mut root,
        r"group\.list.items.one.name",
        &["second".to_string()],
        &keyed_lists,
    )
    .unwrap();
    assert_eq!(
        get_path(&root, r"group\.list.items.one.name", &keyed_lists)
            .unwrap()
            .as_str(),
        Some("second")
    );
}

#[test]
#[allow(clippy::approx_constant)]
fn test_type_coercion() {
    let mut root = Value::Object(ObjectMap::new());

    set_path(&mut root, "port", &["993".to_string()], &[]).unwrap();
    let port = get_path(&root, "port", &[]).unwrap();
    assert_eq!(port.as_integer(), Some(993));

    set_path(&mut root, "enabled", &["true".to_string()], &[]).unwrap();
    let enabled = get_path(&root, "enabled", &[]).unwrap();
    assert_eq!(enabled.as_bool(), Some(true));

    set_path(&mut root, "timeout", &["3.14".to_string()], &[]).unwrap();
    let timeout = get_path(&root, "timeout", &[]).unwrap();
    match timeout.as_float() {
        Some(f) => assert!((f.parse::<f64>().unwrap() - 3.14).abs() < 0.01),
        None => panic!("expected float"),
    }

    set_path(&mut root, "name", &["Alice".to_string()], &[]).unwrap();
    let name = get_path(&root, "name", &[]).unwrap();
    assert_eq!(name.as_str(), Some("Alice"));
}

#[test]
fn test_scalar_array_replacement() {
    let mut root = Value::Object(ObjectMap::new());

    set_path(
        &mut root,
        "tags",
        &["dev".to_string(), "staging".to_string(), "prod".to_string()],
        &[],
    )
    .unwrap();

    let tags = get_path(&root, "tags", &[]).unwrap();
    let arr = tags.as_array().unwrap();
    assert_eq!(arr.len(), 3);
    assert_eq!(arr[0].as_str(), Some("dev"));
    assert_eq!(arr[1].as_str(), Some("staging"));
    assert_eq!(arr[2].as_str(), Some("prod"));
}

#[test]
fn test_nested_object_creation() {
    let mut root = Value::Object(ObjectMap::new());

    set_path(
        &mut root,
        "server.database.connection.host",
        &["localhost".to_string()],
        &[],
    )
    .unwrap();

    let host = get_path(&root, "server.database.connection.host", &[]).unwrap();
    assert_eq!(host.as_str().unwrap(), "localhost");
}

#[test]
fn test_json_array_coercion() {
    let mut root = Value::Object(ObjectMap::new());

    set_path(&mut root, "config", &[r#"["a","b","c"]"#.to_string()], &[]).unwrap();

    let config = get_path(&root, "config", &[]).unwrap();
    let arr = config.as_array().unwrap();
    assert_eq!(arr.len(), 3);
}

#[test]
fn test_type_prefix_coercion() {
    let mut root = Value::Object(ObjectMap::new());

    set_path(&mut root, "field1", &["s:true".to_string()], &[]).unwrap();
    let val = get_path(&root, "field1", &[]).unwrap();
    assert_eq!(val.as_str(), Some("true"));

    set_path(&mut root, "field2", &["b:1".to_string()], &[]).unwrap();
    let val = get_path(&root, "field2", &[]).unwrap();
    assert_eq!(val.as_bool(), Some(true));
}

#[test]
fn test_yaml_uses_strict_yaml_1_2_parsing() {
    let value = Format::Yaml.load("country: NO\nenabled: true\n").unwrap();
    assert_eq!(
        get_path(&value, "country", &[]).unwrap().as_str(),
        Some("NO")
    );
    assert_eq!(
        get_path(&value, "enabled", &[]).unwrap().as_bool(),
        Some(true)
    );

    assert!(Format::Yaml.load("name: first\nname: second\n").is_err());
}

#[test]
fn test_error_on_nonexistent_slug() {
    let mut root = Value::Object(ObjectMap::new());

    let keyed_lists = [KeyedList {
        prefix: "identities",
        slug_field: "identity",
    }];

    if let Some(obj) = root.as_object_mut() {
        obj.insert("identities".to_string(), Value::Array(vec![]));
    }

    let result = remove_keyed(&mut root, "identities", "nonexistent", &keyed_lists);
    assert!(result.is_err());
}

#[test]
fn test_format_detection_json() {
    assert_eq!(Format::detect("config.json"), Some(Format::Json));
    assert_eq!(Format::detect("config.txt"), None);
}

#[test]
fn test_format_detection_toml() {
    assert_eq!(Format::detect("config.toml"), Some(Format::Toml));
}

#[test]
fn test_format_detection_yaml() {
    assert_eq!(Format::detect("config.yaml"), Some(Format::Yaml));
    assert_eq!(Format::detect("config.yml"), Some(Format::Yaml));
}

#[test]
fn test_format_detection_dotenv() {
    for path in [
        ".env",
        ".env.local",
        ".env.test",
        ".env.example",
        "config.env",
        "CONFIG.ENV",
    ] {
        assert_eq!(
            Format::detect(path),
            Some(Format::Dotenv),
            "failed to detect {path}"
        );
    }
    assert_eq!(Format::detect("config.txt"), None);
}

#[test]
fn test_numeric_boundaries_do_not_narrow_unsigned_or_float() {
    let max = agent_first_config::coerce::coerce_scalar("18446744073709551615");
    assert_eq!(max.as_unsigned(), Some(u64::MAX));
    let precise = agent_first_config::coerce::coerce_scalar("9007199254740993");
    assert_eq!(precise.as_integer(), Some(9_007_199_254_740_993));
    let float = agent_first_config::coerce::coerce_scalar("3.0");
    assert!(matches!(float, Value::Float(ref value) if value.parse::<f64>().unwrap() == 3.0));
    assert_eq!(
        agent_first_config::coerce::coerce_scalar(&i64::MIN.to_string()).as_integer(),
        Some(i64::MIN)
    );
    assert_eq!(
        agent_first_config::coerce::coerce_scalar(&i64::MAX.to_string()).as_integer(),
        Some(i64::MAX)
    );
    assert_eq!(
        agent_first_config::coerce::coerce_scalar("9007199254740991").as_integer(),
        Some(9_007_199_254_740_991)
    );
    assert_eq!(
        agent_first_config::coerce::coerce_scalar("9007199254740993").as_integer(),
        Some(9_007_199_254_740_993)
    );
}

#[test]
fn test_yaml_unsigned_boundary_round_trip() {
    let value = Format::Yaml
        .load("n: 18446744073709551615\nf: 3.0\n")
        .unwrap();
    assert_eq!(
        get_path(&value, "n", &[]).unwrap().as_unsigned(),
        Some(u64::MAX)
    );
    assert!(matches!(get_path(&value, "f", &[]).unwrap(), Value::Float(ref value) if value.parse::<f64>().unwrap() == 3.0));
}

#[test]
fn test_yaml_numeric_boundary_matrix() {
    let source = format!(
        "min: {}\nmax: {}\nabove: {}\nu: {}\nprecise: 9007199254740993\n",
        i64::MIN,
        i64::MAX,
        i64::MAX as u128 + 1,
        u64::MAX
    );
    let value = Format::Yaml.load(&source).unwrap();
    assert_eq!(
        get_path(&value, "min", &[]).unwrap().as_integer(),
        Some(i64::MIN)
    );
    assert_eq!(
        get_path(&value, "max", &[]).unwrap().as_integer(),
        Some(i64::MAX)
    );
    assert_eq!(
        get_path(&value, "above", &[]).unwrap().as_unsigned(),
        Some(i64::MAX as u64 + 1)
    );
    assert_eq!(
        get_path(&value, "u", &[]).unwrap().as_unsigned(),
        Some(u64::MAX)
    );
}

#[test]
fn test_ini_core_v1_strings_and_duplicates() {
    let value = Format::Ini
        .load("[database]\r\nhost = localhost\r\nport=5432\r\n")
        .unwrap();
    assert_eq!(
        get_path(&value, "database.host", &[]).unwrap().as_str(),
        Some("localhost")
    );
    assert_eq!(
        get_path(&value, "database.port", &[]).unwrap().as_str(),
        Some("5432")
    );
    assert!(Format::Ini.load("[database]\na=1\na=2\n").is_err());
    assert!(Format::Ini.load("[database]\n[database]\n").is_err());
}

#[test]
fn test_dotenv_read_semantics() {
    let content = [
        "# comment\r\n",
        " BASIC = value with spaces  # comment\r\n",
        "export EMPTY=\r\n",
        "SINGLE='literal # value'\r\n",
        "DOUBLE=\"line\\nquoted\\t\\\"value\\\"\\\\ # value\" # comment\r\n",
        "NUMBER=5432\r\n",
        "UNICODE=你好\r\n",
        "DUPLICATE=first\r\n",
        "DUPLICATE=last\r\n",
        "REFERENCE=${AFCONFIG_TEST_PROCESS_VALUE}\r\n",
    ]
    .concat();
    let error = Format::Dotenv
        .load(&content)
        .expect_err("duplicate keys must fail");
    assert!(error.message().contains("duplicate"));
    let content = content
        .replace("DUPLICATE=first\r\n", "")
        .replace("DUPLICATE=last\r\n", "");
    let value = Format::Dotenv.load(&content).expect("dotenv should parse");

    let expected = [
        ("BASIC", "value with spaces"),
        ("EMPTY", ""),
        ("SINGLE", "literal # value"),
        ("DOUBLE", "line\nquoted\t\"value\"\\ # value"),
        ("NUMBER", "5432"),
        ("UNICODE", "你好"),
        ("REFERENCE", "${AFCONFIG_TEST_PROCESS_VALUE}"),
    ];
    for (key, expected_value) in expected {
        let actual = get_path(&value, key, &[]).expect("key should exist");
        assert_eq!(actual.as_str(), Some(expected_value));
        assert!(actual.is_string());
    }
}

#[test]
fn test_dotenv_rejects_invalid_assignments_without_source_text() {
    let error = Format::Dotenv
        .load("SECRET_VALUE_WITHOUT_EQUALS")
        .expect_err("invalid assignment should fail");
    let message = error.message();
    assert!(message.contains("line 1"));
    assert!(!message.contains("SECRET_VALUE_WITHOUT_EQUALS"));
}
