use agent_first_config::format::toml_doc::toml_writable;
use agent_first_config::cli::{
    OutputKind, SecretSource, check_value_only, detect_format, parse_field_pairs,
    parse_output_format, preflight_mutation, read_secret_reader, scalar_bytes, secret_from_prompt,
    secret_source,
};
use agent_first_config::coerce::{coerce_scalar, coerce_scalar_typed, coerce_values_typed};
use agent_first_config::error::ConfigError;
use agent_first_config::format::{Format, format_name};
use agent_first_config::keyed::{KeyedList, add_keyed, remove_keyed};
use agent_first_config::path::{join_path, parse_path};
use agent_first_config::render::debug_string;
use agent_first_config::schema::{
    FieldDef, render_annotated_toml, render_annotated_yaml, render_doc_markdown,
};
use agent_first_config::traverse::{add_scalar, get_path, remove_path, remove_scalar, set_path};
use agent_first_config::value::{ObjectMap, Value};

fn strings(items: &[&str]) -> Vec<String> {
    items.iter().map(|s| s.to_string()).collect()
}

fn sample() -> Value {
    Format::Json
        .load(r#"{"a": {"x": 1, "y": "why"}, "b": [10, 20, 30], "s": "text"}"#)
        .unwrap()
}

fn identities() -> (Value, [KeyedList; 1]) {
    let mut root = Value::Object(ObjectMap::new());
    root.as_object_mut()
        .unwrap()
        .insert("identities".to_string(), Value::Array(vec![]));
    let keyed = [KeyedList {
        prefix: "identities",
        slug_field: "identity",
    }];
    (root, keyed)
}

#[test]
fn law_get_after_set_through_keyed_list() {
    let (mut root, keyed) = identities();
    add_keyed(&mut root, "identities", "alice", &keyed, None, &[]).unwrap();
    set_path(&mut root, "identities.alice.email", &strings(&["a@x.org"]), &keyed).unwrap();
    let got = get_path(&root, "identities.alice.email", &keyed).unwrap();
    assert_eq!(got, Value::String("a@x.org".to_string()));
}

#[test]
fn law_get_after_set_coerces_toward_existing_type() {
    let mut root = sample();
    set_path(&mut root, "a.y", &strings(&["42"]), &[]).unwrap();
    assert_eq!(get_path(&root, "a.y", &[]).unwrap(), Value::String("42".to_string()));
    set_path(&mut root, "a.x", &strings(&["7"]), &[]).unwrap();
    assert_eq!(get_path(&root, "a.x", &[]).unwrap(), Value::Integer(7));
}

#[test]
fn law_set_keeps_other_paths() {
    let mut root = sample();
    let before_y = get_path(&root, "a.y", &[]).unwrap();
    let before_b = get_path(&root, "b", &[]).unwrap();
    set_path(&mut root, "a.x", &strings(&["5"]), &[]).unwrap();
    assert_eq!(get_path(&root, "a.y", &[]).unwrap(), before_y);
    assert_eq!(get_path(&root, "b", &[]).unwrap(), before_b);
    set_path(&mut root, "b.1", &strings(&["21"]), &[]).unwrap();
    assert_eq!(get_path(&root, "b.0", &[]).unwrap(), Value::Integer(10));
    assert_eq!(get_path(&root, "b.2", &[]).unwrap(), Value::Integer(30));
    assert_eq!(get_path(&root, "b.1", &[]).unwrap(), Value::Integer(21));
}

#[test]
fn law_get_after_remove_reports_unknown_segment() {
    let mut root = sample();
    remove_path(&mut root, "a.x").unwrap();
    let err = get_path(&root, "a.x", &[]).unwrap_err();
    assert!(matches!(
        err,
        ConfigError::UnknownSegment { ref path, ref segment } if path == "a.x" && segment == "x"
    ));
    assert_eq!(get_path(&root, "a.y", &[]).unwrap(), Value::String("why".to_string()));
}

#[test]
fn law_remove_keeps_other_paths() {
    let mut root = sample();
    remove_path(&mut root, "a.x").unwrap();
    assert_eq!(get_path(&root, "a.y", &[]).unwrap(), Value::String("why".to_string()));
    assert_eq!(get_path(&root, "s", &[]).unwrap(), Value::String("text".to_string()));
    let mut nested = Format::Json
        .load(r#"{"steps": [{"id": 1, "to": "a"}, {"id": 2, "to": "b"}]}"#)
        .unwrap();
    remove_path(&mut nested, "steps.1.to").unwrap();
    assert_eq!(get_path(&nested, "steps.1.id", &[]).unwrap(), Value::Integer(2));
    assert_eq!(get_path(&nested, "steps.0.to", &[]).unwrap(), Value::String("a".to_string()));
}

#[test]
fn law_keyed_add_then_get_finds_element() {
    let (mut root, keyed) = identities();
    add_keyed(
        &mut root,
        "identities",
        "bob",
        &keyed,
        None,
        &[("age".to_string(), "30".to_string())],
    )
    .unwrap();
    let elem = get_path(&root, "identities.bob", &keyed).unwrap();
    let mut expected = ObjectMap::new();
    expected.insert("age".to_string(), Value::Integer(30));
    expected.insert("identity".to_string(), Value::String("bob".to_string()));
    assert_eq!(elem, Value::Object(expected));
}

#[test]
fn law_keyed_add_twice_is_refused() {
    let (mut root, keyed) = identities();
    add_keyed(&mut root, "identities", "bob", &keyed, None, &[]).unwrap();
    let before = root.clone();
    let err = add_keyed(&mut root, "identities", "bob", &keyed, None, &[]).unwrap_err();
    assert!(matches!(
        err,
        ConfigError::SlugAlreadyExists { ref prefix, ref slug } if prefix == "identities" && slug == "bob"
    ));
    assert_eq!(root, before);
}

#[test]
fn law_keyed_add_appends_to_existing_list() {
    let (mut root, keyed) = identities();
    add_keyed(&mut root, "identities", "alice", &keyed, None, &[]).unwrap();
    let before = get_path(&root, "identities", &keyed).unwrap();
    add_keyed(&mut root, "identities", "bob", &keyed, None, &[]).unwrap();
    let mut bob = ObjectMap::new();
    bob.insert("identity".to_string(), Value::String("bob".to_string()));
    let mut expected = before.as_array().unwrap().clone();
    expected.push(Value::Object(bob));
    assert_eq!(get_path(&root, "identities", &keyed).unwrap(), Value::Array(expected));
}

#[test]
fn law_keyed_remove_undoes_add() {
    let (mut root, keyed) = identities();
    add_keyed(&mut root, "identities", "alice", &keyed, None, &[]).unwrap();
    let before = root.clone();
    add_keyed(
        &mut root,
        "identities",
        "bob",
        &keyed,
        None,
        &[("age".to_string(), "30".to_string())],
    )
    .unwrap();
    assert_ne!(root, before);
    remove_keyed(&mut root, "identities", "bob", &keyed).unwrap();
    assert_eq!(root, before);
}

#[test]
fn law_keyed_remove_then_get_reports_slug_not_found() {
    let (mut root, keyed) = identities();
    add_keyed(&mut root, "identities", "bob", &keyed, None, &[]).unwrap();
    remove_keyed(&mut root, "identities", "bob", &keyed).unwrap();
    let err = get_path(&root, "identities.bob", &keyed).unwrap_err();
    assert!(matches!(
        err,
        ConfigError::SlugNotFound { ref prefix, ref slug } if prefix == "identities" && slug == "bob"
    ));
}

#[test]
fn law_path_round_trip() {
    let segs = parse_path(r"a\.b.c\\d.e").unwrap();
    assert_eq!(segs, strings(&["a.b", r"c\d", "e"]));
    assert_eq!(join_path(&segs), r"a\.b.c\\d.e");
    let joined = join_path(&strings(&["x.y", "z"]));
    assert_eq!(joined, r"x\.y.z");
    assert_eq!(parse_path(&joined).unwrap(), strings(&["x.y", "z"]));
}

#[test]
fn failed_operations_leave_document_unchanged() {
    let mut root = sample();
    let before = root.clone();
    let err = set_path(&mut root, "s.deeper", &strings(&["1"]), &[]).unwrap_err();
    assert!(matches!(err, ConfigError::NotTraversable { ref path, .. } if path == "s"));
    assert_eq!(root, before);
    assert!(add_scalar(&mut root, "a.x", &strings(&["1"])).is_err());
    assert_eq!(root, before);
    assert!(remove_scalar(&mut root, "a.missing", &strings(&["1"])).is_err());
    assert_eq!(root, before);
    assert!(remove_path(&mut root, "a.missing.deeper").is_err());
    assert_eq!(root, before);
    assert!(set_path(&mut root, "a.x", &[], &[]).is_err());
    assert_eq!(root, before);
}

#[test]
fn error_variants_and_messages() {
    let root = sample();
    let e = get_path(&root, "", &[]).unwrap_err();
    assert!(matches!(e, ConfigError::EmptyPath));
    assert_eq!(e.message(), "empty path provided");

    let mut m = sample();
    let e = set_path(&mut m, "a.x", &[], &[]).unwrap_err();
    assert!(matches!(e, ConfigError::EmptyValues));
    assert_eq!(e.message(), "at least one value required");

    let e = get_path(&root, "a.z", &[]).unwrap_err();
    assert_eq!(e.message(), "path `a.z` segment `z` not found");

    let e = get_path(&root, "b.first", &[]).unwrap_err();
    assert_eq!(e.message(), "array at `b` not registered in KeyedList");

    let e = get_path(&root, "b.7", &[]).unwrap_err();
    assert_eq!(e.message(), "index 7 out of bounds at `b` (len 3)");

    let e = get_path(&root, "s.more", &[]).unwrap_err();
    assert_eq!(
        e.message(),
        "path `s.more` is String(\"text\"), cannot traverse further"
    );

    let mut m = sample();
    let e = remove_path(&mut m, "a.gone").unwrap_err();
    assert_eq!(e.message(), "path `gone` not found in config");

    let e = parse_path(r"a\x").unwrap_err();
    assert_eq!(e.message(), r"failed to parse path: invalid escape in `a\x`");
    let e = parse_path("a..b").unwrap_err();
    assert_eq!(e.message(), "failed to parse path: empty segment in `a..b`");

    let e = ConfigError::from_serde("port", "invalid type: string \"x\", expected u16 at line 1 column 9");
    assert_eq!(
        e.message(),
        "field `port` expects , got `invalid type: string \"x\", expected u16`"
    );

    let e = Format::Dotenv.load("A=1\nB\n").unwrap_err();
    assert_eq!(e.message(), "failed to parse dotenv: line 2: expected '=' after the key");
    let e = Format::Ini.load("[s]\r\nk=1\r\nk=2\r\n").unwrap_err();
    assert_eq!(e.message(), "failed to parse INI: line 3: duplicate key");

    let e = read_secret_reader(Err("broken pipe".to_string()), "stdin").unwrap_err();
    assert_eq!(e.message(), "io error: read secret from stdin: broken pipe");
}

#[test]
fn keyed_list_errors() {
    let (mut root, keyed) = identities();
    let e = add_keyed(&mut root, "people", "x", &keyed, None, &[]).unwrap_err();
    assert_eq!(e.message(), "array at `people` not registered in KeyedList");
    let e = add_keyed(&mut root, "identities", "a.b", &keyed, None, &[]).unwrap_err();
    assert_eq!(
        e.message(),
        "failed to parse slug: slug `a.b` must not contain '.' (path separator)"
    );
    let e = remove_keyed(&mut root, "identities", "nobody", &keyed).unwrap_err();
    assert_eq!(e.message(), "no element with slug `nobody` found in `identities`");
    let e = get_path(&root, "identities.nobody", &keyed).unwrap_err();
    assert_eq!(e.message(), "no element with slug `nobody` found in `identities`");
}

#[test]
fn keyed_add_creates_missing_list_and_slug_field_wins() {
    let mut root = Value::Object(ObjectMap::new());
    let keyed = [KeyedList {
        prefix: "cfg.users",
        slug_field: "uid",
    }];
    let mut seed = ObjectMap::new();
    seed.insert("uid".to_string(), Value::String("seeded".to_string()));
    seed.insert("role".to_string(), Value::String("user".to_string()));
    add_keyed(
        &mut root,
        "cfg.users",
        "bob",
        &keyed,
        Some(&Value::Object(seed)),
        &[
            ("uid".to_string(), "other".to_string()),
            ("role".to_string(), "dev".to_string()),
        ],
    )
    .unwrap();
    let elem = get_path(&root, "cfg.users.bob", &keyed).unwrap();
    assert_eq!(elem.get("uid").unwrap().as_str(), Some("bob"));
    assert_eq!(elem.get("role").unwrap().as_str(), Some("dev"));
}

#[test]
fn add_and_remove_scalars() {
    let mut root = sample();
    add_scalar(&mut root, "tags", &strings(&["x", "2", "true"])).unwrap();
    let tags = get_path(&root, "tags", &[]).unwrap();
    assert_eq!(
        tags,
        Value::Array(vec![
            Value::String("x".to_string()),
            Value::Integer(2),
            Value::Bool(true)
        ])
    );
    add_scalar(&mut root, "b", &strings(&["40"])).unwrap();
    remove_scalar(&mut root, "b", &strings(&["10", "30"])).unwrap();
    assert_eq!(
        get_path(&root, "b", &[]).unwrap(),
        Value::Array(vec![Value::Integer(20), Value::Integer(40)])
    );
}

#[test]
fn typed_coercion_follows_existing_value() {
    assert_eq!(
        coerce_scalar_typed("42", Some(&Value::String("old".to_string()))),
        Value::String("42".to_string())
    );
    assert_eq!(
        coerce_scalar_typed("yes", Some(&Value::Bool(false))),
        Value::String("yes".to_string())
    );
    assert_eq!(coerce_scalar_typed("true", Some(&Value::Bool(false))), Value::Bool(true));
    assert_eq!(coerce_scalar_typed("Null", Some(&Value::Integer(1))), Value::Null);
    assert_eq!(
        coerce_scalar_typed("i:abc", None),
        Value::String("i:abc".to_string())
    );
    assert_eq!(
        coerce_scalar_typed("j:[1]", None),
        Value::Array(vec![Value::Integer(1)])
    );
    assert_eq!(
        coerce_scalar_typed("j:oops", None),
        Value::String("j:oops".to_string())
    );
    assert_eq!(
        coerce_scalar_typed("7", Some(&Value::Array(vec![]))),
        Value::String("7".to_string())
    );
    let existing = Value::Array(vec![Value::Integer(1)]);
    assert_eq!(
        coerce_values_typed(&strings(&["2", "x"]), Some(&existing)).unwrap(),
        Value::Array(vec![Value::Integer(2), Value::String("x".to_string())])
    );
    assert_eq!(
        coerce_values_typed(&strings(&["1", "2"]), None).unwrap(),
        Value::Array(vec![Value::String("1".to_string()), Value::String("2".to_string())])
    );
    assert_eq!(
        coerce_values_typed(&strings(&["i:1", "null"]), Some(&Value::Array(vec![]))).unwrap(),
        Value::Array(vec![Value::Integer(1), Value::Null])
    );
    assert_eq!(coerce_scalar("1e3"), Value::Float("1e3".to_string()));
    assert_eq!(coerce_scalar("18446744073709551615").as_unsigned(), Some(u64::MAX));
    assert_eq!(coerce_scalar("9223372036854775807").as_integer(), Some(i64::MAX));
    assert_eq!(coerce_scalar("-9223372036854775808").as_integer(), Some(i64::MIN));
    assert_eq!(coerce_scalar("9223372036854775808"), Value::Unsigned(9223372036854775808));
    assert_eq!(
        coerce_scalar("18446744073709551616"),
        Value::Float("18446744073709551616".to_string())
    );
    assert_eq!(
        coerce_scalar_typed("+7", Some(&Value::Unsigned(u64::MAX))),
        Value::Unsigned(7)
    );
    assert_eq!(
        coerce_scalar_typed("-7", Some(&Value::Unsigned(u64::MAX))),
        Value::String("-7".to_string())
    );
    assert_eq!(coerce_scalar("-inf"), Value::Float("-inf".to_string()));
    assert_eq!(coerce_scalar("[oops"), Value::String("[oops".to_string()));
}

#[test]
fn readers_convert_parsed_trees() {
    let v = Format::Json
        .load(r#"{"n": 18446744073709551615, "f": 3.5, "i": -4, "z": null}"#)
        .unwrap();
    assert_eq!(get_path(&v, "n", &[]).unwrap(), Value::Unsigned(u64::MAX));
    assert_eq!(get_path(&v, "n", &[]).unwrap().as_unsigned(), Some(u64::MAX));
    assert_eq!(get_path(&v, "f", &[]).unwrap(), Value::Float("3.5".to_string()));
    assert_eq!(get_path(&v, "i", &[]).unwrap(), Value::Integer(-4));
    assert_eq!(get_path(&v, "z", &[]).unwrap(), Value::Null);
    let e = Format::Json.load("{").unwrap_err();
    assert!(matches!(e, ConfigError::ParseError { ref format, ref detail } if format == "JSON" && !detail.is_empty()));

    let t = Format::Toml
        .load("when = 2024-01-01T00:00:00Z\nratio = 0.5\n[db]\nport = 5432\n")
        .unwrap();
    assert_eq!(
        get_path(&t, "when", &[]).unwrap(),
        Value::String("2024-01-01T00:00:00Z".to_string())
    );
    assert_eq!(get_path(&t, "ratio", &[]).unwrap(), Value::Float("0.5".to_string()));
    assert_eq!(get_path(&t, "db.port", &[]).unwrap(), Value::Integer(5432));
    assert!(matches!(Format::Toml.load("= 1").unwrap_err(), ConfigError::ParseError { ref format, .. } if format == "TOML"));

    let y = Format::Yaml
        .load("tagged: !thing 5\nlist: [1, two]\n1: dropped\nbig: 18446744073709551615\nhalf: 0.5\n")
        .unwrap();
    assert_eq!(get_path(&y, "big", &[]).unwrap(), Value::Unsigned(u64::MAX));
    assert_eq!(get_path(&y, "half", &[]).unwrap(), Value::Float("0.5".to_string()));
    assert_eq!(get_path(&y, "tagged", &[]).unwrap(), Value::Integer(5));
    assert_eq!(
        get_path(&y, "list", &[]).unwrap(),
        Value::Array(vec![Value::Integer(1), Value::String("two".to_string())])
    );
    assert!(get_path(&y, "1", &[]).is_err());
    assert!(matches!(Format::Ini.load("a=1").unwrap_err(), ConfigError::ParseError { ref format, .. } if format == "INI"));
    assert!(Format::Json.ensure_writable("set").is_ok());
    assert!(Format::Yaml.check_savable().is_ok());
    assert_eq!(
        Format::Ini.check_savable().unwrap_err().message(),
        "INI does not support save: INI documents are not written back from a value tree"
    );
}

#[test]
fn renderings() {
    let v = Format::Json.load(r#"{"a": [1, "q\"t"], "b": true}"#).unwrap();
    assert_eq!(
        debug_string(&v),
        "Object({\"a\": Array([Integer(1), String(\"q\\\"t\")]), \"b\": Bool(true)})"
    );
    assert_eq!(Value::String("a\"\n\u{7f}é".to_string()).display_string(), "\"a\\\"\\n\\u{7f}\\u{e9}\"");
    assert_eq!(Value::Integer(-12).display_string(), "-12");
    assert_eq!(Value::Unsigned(u64::MAX).display_string(), "18446744073709551615");
    assert_eq!(debug_string(&Value::Unsigned(7)), "Unsigned(7)");
    assert_eq!(Value::Null.display_string(), "null");
    assert_eq!(Value::Array(vec![]).display_string(), "[...]");
    assert_eq!(Value::Object(ObjectMap::new()).display_string(), "{...}");
}

fn fields() -> Vec<FieldDef> {
    vec![
        FieldDef {
            path: "imap.host",
            type_label: "string",
            description: "IMAP server",
            default: Some("localhost"),
            example: None,
            required: true,
            secret: false,
        },
        FieldDef {
            path: "auth.password",
            type_label: "string",
            description: "Password",
            default: None,
            example: None,
            required: false,
            secret: true,
        },
        FieldDef {
            path: "imap.port",
            type_label: "integer",
            description: "Port",
            default: Some("993"),
            example: None,
            required: false,
            secret: false,
        },
    ]
}

#[test]
fn markdown_reference() {
    assert_eq!(render_doc_markdown("T", &[]), "# T Configuration Reference\n\n");
    let out = render_doc_markdown("Mail", &fields());
    assert_eq!(
        out,
        "# Mail Configuration Reference\n\n\
## auth\n\n| Key | Type | Default | Description |\n|-----|------|---------|-------------|\n\
| `auth.password` 🔒 | `string` | `—` | Password |\n\n\
## imap\n\n| Key | Type | Default | Description |\n|-----|------|---------|-------------|\n\
| `imap.host` | `string` | `localhost` | IMAP server **Required** |\n\
| `imap.port` | `integer` | `993` | Port |\n\n"
    );
}

#[test]
fn annotated_toml_and_yaml() {
    let doc = Format::Json
        .load(r#"{"name": "app", "port": 8080, "tags": ["a", 1, true], "nested": {"x": 1}, "ratio": 0.5, "none": null}"#)
        .unwrap();
    let defs = vec![
        FieldDef {
            path: "name",
            type_label: "string",
            description: "App name",
            default: Some("app"),
            example: None,
            required: false,
            secret: false,
        },
        FieldDef {
            path: "port",
            type_label: "integer",
            description: "Port",
            default: None,
            example: None,
            required: false,
            secret: false,
        },
    ];
    assert_eq!(
        render_annotated_toml(&doc, &defs),
        "# App name\n# Type: string | Default: app\nname = \"app\"\n\n\
nested = \n\
none = null\n\
# Port\nport = 8080\n\n\
ratio = 0.5\n\
tags = [\"a\", 1, ]\n"
    );

    let doc = Format::Json
        .load(r#"{"server": {"host": "x", "list": ["a", 2]}, "debug": false}"#)
        .unwrap();
    let defs = vec![
        FieldDef {
            path: "server.host",
            type_label: "string",
            description: "Host",
            default: Some("localhost"),
            example: None,
            required: false,
            secret: false,
        },
        FieldDef {
            path: "debug",
            type_label: "bool",
            description: "Debug mode",
            default: None,
            example: None,
            required: false,
            secret: false,
        },
    ];
    assert_eq!(
        render_annotated_yaml(&doc, &defs),
        "# Debug mode\ndebug: false\nserver: \n  # Host\n  # Default: localhost\n  host: \"x\"\n  list: [\n    - \"a\"\n    - 2\n  ]\n"
    );
    assert_eq!(render_annotated_yaml(&Value::Integer(1), &defs), "");
}

#[test]
fn cli_decisions() {
    assert_eq!(detect_format("cfg", Some("YML")).unwrap(), Format::Yaml);
    assert_eq!(detect_format("cfg", Some("env")).unwrap(), Format::Dotenv);
    assert_eq!(
        detect_format("cfg", Some("XML")).unwrap_err().message(),
        "failed to parse format: unsupported format `xml`"
    );
    assert_eq!(detect_format("dir/app.JSON", None).unwrap(), Format::Json);
    assert_eq!(
        detect_format("noext", None).unwrap_err().message(),
        "failed to parse format: cannot detect format from file extension; pass --format"
    );
    assert_eq!(format_name(Format::Dotenv), "dotenv");
    assert_eq!(format_name(Format::Ini), "INI");

    assert_eq!(parse_output_format("LogFmt").unwrap(), OutputKind::Plain);
    assert_eq!(parse_output_format("yaml").unwrap(), OutputKind::Yaml);
    assert_eq!(
        parse_output_format("XML").unwrap_err(),
        "unsupported output format `xml`; expected json, yaml, or plain"
    );

    let pairs = parse_field_pairs(&strings(&["a=1", "b=x=y", "c="])).unwrap();
    assert_eq!(
        pairs,
        vec![
            ("a".to_string(), "1".to_string()),
            ("b".to_string(), "x=y".to_string()),
            ("c".to_string(), String::new())
        ]
    );
    assert_eq!(
        parse_field_pairs(&strings(&["a=1", "bad"])).unwrap_err().message(),
        "failed to parse cli: field `bad` must use FIELD=VALUE"
    );
    assert_eq!(
        parse_field_pairs(&strings(&["=v"])).unwrap_err().message(),
        "failed to parse cli: field name must not be empty"
    );

    assert!(check_value_only(true, false).is_ok());
    assert!(check_value_only(false, true).is_ok());
    assert_eq!(
        check_value_only(true, true).unwrap_err().message(),
        "cli does not support get --value-only: --value-only cannot be combined with --output"
    );

    assert!(preflight_mutation("cfg.json", "set", false, 1).is_ok());
    assert_eq!(
        preflight_mutation("cfg.json", "set", true, 1).unwrap_err().message(),
        "filesystem does not support set: refusing to mutate symlink `cfg.json`"
    );
    assert_eq!(
        preflight_mutation("cfg.json", "unset", false, 2).unwrap_err().message(),
        "filesystem does not support unset: refusing to mutate hardlinked file `cfg.json`"
    );
}

#[test]
fn secret_handling() {
    assert_eq!(
        read_secret_reader(Ok("s3kr3t-Ünïcode\n".as_bytes().to_vec()), "stdin").unwrap(),
        vec!["s3kr3t-Ünïcode\n".to_string()]
    );
    assert_eq!(
        read_secret_reader(Ok(vec![0xff, 0xfe]), "stdin").unwrap_err().message(),
        "failed to parse secret source: secret input must be valid UTF-8"
    );
    assert_eq!(
        read_secret_reader(Ok(vec![b'a'; 1024 * 1024 + 1]), "stdin")
            .unwrap_err()
            .message(),
        "secret source does not support read: secret exceeds 1048576 bytes"
    );
    assert!(read_secret_reader(Ok(vec![b'a'; 1024 * 1024]), "stdin").is_ok());
    assert_eq!(secret_from_prompt("hunter2\r\n").unwrap(), vec!["hunter2".to_string()]);
    assert!(matches!(
        secret_source(Some("v".to_string()), true, true, Some("9")).unwrap(),
        SecretSource::Inline(ref v) if v == "v"
    ));
    assert!(matches!(secret_source(None, true, false, None).unwrap(), SecretSource::Stdin));
    assert!(matches!(secret_source(None, false, true, None).unwrap(), SecretSource::Prompt));
    assert!(matches!(secret_source(None, false, false, Some("42")).unwrap(), SecretSource::Descriptor(42)));
    assert!(matches!(secret_source(None, false, false, None).unwrap(), SecretSource::Values));
    assert_eq!(
        secret_source(None, false, false, Some("2")).unwrap_err().message(),
        "failed to parse secret source: --value-secret-fd requires a descriptor >= 3"
    );
    assert_eq!(
        secret_source(None, false, false, Some("x")).unwrap_err().message(),
        "failed to parse secret source: --value-secret-fd requires a numeric descriptor"
    );
}

#[test]
fn scalar_bytes_of_values() {
    assert_eq!(scalar_bytes(&Value::String("hé".to_string()), "k").unwrap(), "hé".as_bytes());
    assert_eq!(scalar_bytes(&Value::Bool(true), "k").unwrap(), b"true");
    assert_eq!(scalar_bytes(&Value::Integer(-5), "k").unwrap(), b"-5");
    assert_eq!(
        scalar_bytes(&Value::Unsigned(u64::MAX), "k").unwrap(),
        b"18446744073709551615"
    );
    assert_eq!(scalar_bytes(&Value::Null, "k").unwrap(), b"null");
    assert_eq!(scalar_bytes(&Value::Float("2.5".to_string()), "k").unwrap(), b"2.5");
    assert_eq!(
        scalar_bytes(&Value::Float("NaN".to_string()), "k").unwrap_err().message(),
        "value does not support get --value-only: non-finite scalar at `k`"
    );
    assert_eq!(
        scalar_bytes(&Value::Array(vec![]), "items").unwrap_err().message(),
        "value does not support get --value-only: path `items` is not a scalar"
    );
}

#[test]
fn law_untyped_coercion_is_shape() {
    for s in ["993", "true", "3.14", "Alice", "[1,2]", "NULL", "s:x", "18446744073709551615"] {
        assert_eq!(coerce_scalar_typed(s, None), coerce_scalar(s));
        assert_eq!(
            coerce_values_typed(&strings(&[s]), None).unwrap(),
            coerce_scalar_typed(s, None)
        );
    }
    assert_eq!(
        coerce_scalar("[1,2]"),
        Value::Array(vec![Value::Integer(1), Value::Integer(2)])
    );
}

#[test]
fn dotenv_and_ini_readers() {
    let value = Format::Dotenv.load("# keep\nMULTI=\"first\nsecond\"\nOTHER=abc#def\n").unwrap();
    assert_eq!(get_path(&value, "MULTI", &[]).unwrap().as_str(), Some("first\nsecond"));
    assert_eq!(get_path(&value, "OTHER", &[]).unwrap().as_str(), Some("abc#def"));
    let value = Format::Dotenv.load("KEY=value\nEMPTY=\nREF=${X}\nexport=1\nK2= #c\n").unwrap();
    let mut expected = ObjectMap::new();
    expected.insert("KEY".to_string(), Value::String("value".to_string()));
    expected.insert("EMPTY".to_string(), Value::String(String::new()));
    expected.insert("REF".to_string(), Value::String("${X}".to_string()));
    expected.insert("export".to_string(), Value::String("1".to_string()));
    expected.insert("K2".to_string(), Value::String(String::new()));
    assert_eq!(value, Value::Object(expected));
    assert_eq!(
        Format::Dotenv.load("A='x\n").unwrap_err().message(),
        "failed to parse dotenv: line 1: unterminated single-quoted value"
    );
    assert_eq!(
        Format::Dotenv.load("\nA=\"x\" y\n").unwrap_err().message(),
        "failed to parse dotenv: line 2: unexpected text after a quoted value"
    );
    assert_eq!(
        Format::Dotenv.load("=x\n").unwrap_err().message(),
        "failed to parse dotenv: line 1: expected a key"
    );

    let source = "; comment\r\n[Database]\r\nkey.with.dot = value # literal\r\nempty=\r\n\r\n[empty]\r\n";
    let value = Format::Ini.load(source).unwrap();
    assert_eq!(
        get_path(&value, r"Database.key\.with\.dot", &[]).unwrap().as_str(),
        Some("value # literal")
    );
    assert_eq!(get_path(&value, "Database.empty", &[]).unwrap().as_str(), Some(""));
    assert_eq!(get_path(&value, "empty", &[]).unwrap(), Value::Object(ObjectMap::new()));
    assert!(Format::Ini.load("root=value\n").is_err());
    assert!(Format::Ini.load("[s]\na: b\n").is_err());
    assert_eq!(
        Format::Ini.load("[s]\n[s]\n").unwrap_err().message(),
        "failed to parse INI: line 2: duplicate section"
    );
    assert_eq!(
        Format::Ini.load("root=value\n").unwrap_err().message(),
        "failed to parse INI: line 1: entry outside a section"
    );
    assert_eq!(
        Format::Ini.load("[a]\n[]\n").unwrap_err().message(),
        "failed to parse INI: line 2: invalid section header"
    );
}

#[test]
fn law_keyed_add_refuses_present_slug() {
    let keyed = [KeyedList {
        prefix: "identities",
        slug_field: "identity",
    }];
    let mut root = Format::Json
        .load(r#"{"identities": [{"identity": "bob", "age": 3}]}"#)
        .unwrap();
    let before = root.clone();
    let err = add_keyed(
        &mut root,
        "identities",
        "bob",
        &keyed,
        None,
        &[("age".to_string(), "4".to_string())],
    )
    .unwrap_err();
    assert!(matches!(
        err,
        ConfigError::SlugAlreadyExists { ref prefix, ref slug } if prefix == "identities" && slug == "bob"
    ));
    assert_eq!(root, before);
}

#[test]
fn parsed_trees_convert_exactly() {
    let v = Format::Json
        .load(r#"{"a": 1, "b": 18446744073709551615, "c": -3, "d": 1e-10, "e": 3.0, "f": [true, null, "x"], "g": {"z": 1, "y": 2}}"#)
        .unwrap();
    assert_eq!(get_path(&v, "a", &[]).unwrap(), Value::Integer(1));
    assert_eq!(get_path(&v, "b", &[]).unwrap(), Value::Unsigned(u64::MAX));
    assert_eq!(get_path(&v, "c", &[]).unwrap(), Value::Integer(-3));
    assert_eq!(get_path(&v, "d", &[]).unwrap(), Value::Float("1e-10".to_string()));
    assert_eq!(get_path(&v, "e", &[]).unwrap(), Value::Float("3.0".to_string()));
    assert_eq!(
        get_path(&v, "f", &[]).unwrap(),
        Value::Array(vec![Value::Bool(true), Value::Null, Value::String("x".to_string())])
    );
    let g = get_path(&v, "g", &[]).unwrap();
    let m = g.as_object().unwrap();
    assert_eq!(m.key_at(0), "y");
    assert_eq!(m.key_at(1), "z");

    let t = Format::Toml.load("x = [1, 2.5]\n[t]\nk = \"v\"\n").unwrap();
    assert_eq!(
        get_path(&t, "x", &[]).unwrap(),
        Value::Array(vec![Value::Integer(1), Value::Float("2.5".to_string())])
    );
    assert_eq!(get_path(&t, "t.k", &[]).unwrap(), Value::String("v".to_string()));

    let y = Format::Yaml.load("a: !t [1, -2]\n? [k]\n: dropped\nb: 2.5\n").unwrap();
    assert_eq!(
        get_path(&y, "a", &[]).unwrap(),
        Value::Array(vec![Value::Integer(1), Value::Integer(-2)])
    );
    assert_eq!(get_path(&y, "b", &[]).unwrap(), Value::Float("2.5".to_string()));
    assert_eq!(y.as_object().unwrap().len(), 2);

    assert_eq!(
        coerce_scalar(r#"{"a":true}"#),
        Value::Object({
            let mut o = ObjectMap::new();
            o.insert("a".to_string(), Value::Bool(true));
            o
        })
    );
    assert_eq!(coerce_scalar("j:[1]"), Value::Array(vec![Value::Integer(1)]));
    assert_eq!(coerce_scalar("[1,"), Value::String("[1,".to_string()));
    assert_eq!(
        coerce_scalar_typed("[1]", Some(&Value::Object(ObjectMap::new()))),
        Value::Array(vec![Value::Integer(1)])
    );
}

#[test]
fn law_keyed_edits_keep_other_paths_and_removal_shifts() {
    let keyed = [KeyedList {
        prefix: "identities",
        slug_field: "identity",
    }];
    let mut root = Format::Json
        .load(r#"{"identities": [], "other": {"x": 1}, "list": [10, 20, 30]}"#)
        .unwrap();
    add_keyed(&mut root, "identities", "bob", &keyed, None, &[]).unwrap();
    assert_eq!(get_path(&root, "other.x", &keyed).unwrap(), Value::Integer(1));
    remove_keyed(&mut root, "identities", "bob", &keyed).unwrap();
    assert_eq!(get_path(&root, "other", &keyed).unwrap(), get_path(&root, "other", &[]).unwrap());
    assert_eq!(get_path(&root, "other.x", &keyed).unwrap(), Value::Integer(1));
    remove_path(&mut root, "list.0").unwrap();
    assert_eq!(
        get_path(&root, "list", &[]).unwrap(),
        Value::Array(vec![Value::Integer(20), Value::Integer(30)])
    );
}

#[test]
fn toml_refuses_null_and_large_unsigned() {
    let mut ok = ObjectMap::new();
    ok.insert("a".to_string(), Value::Unsigned(5));
    assert!(toml_writable(&Value::Object(ok)).is_ok());
    let mut bad = ObjectMap::new();
    bad.insert("a".to_string(), Value::Array(vec![Value::Integer(1), Value::Null]));
    let e = toml_writable(&Value::Object(bad)).unwrap_err();
    assert!(e.message().contains("no null"));
    let e = toml_writable(&Value::Unsigned(u64::MAX)).unwrap_err();
    assert!(e.message().contains("exceeds TOML"));
}
