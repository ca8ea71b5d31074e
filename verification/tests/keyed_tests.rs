use agent_first_config::keyed::{KeyedList, add_keyed, remove_keyed};
use agent_first_config::value::{ObjectMap, Value};

#[test]
fn test_add_keyed() {
    let mut root = Value::Object(Default::default());
    let keyed = [KeyedList {
        prefix: "identities",
        slug_field: "identity",
    }];

    root.as_object_mut()
        .unwrap()
        .insert("identities".to_string(), Value::Array(vec![]));

    add_keyed(
        &mut root,
        "identities",
        "me",
        &keyed,
        None,
        &[
            ("email".to_string(), "me@example.com".to_string()),
            ("name".to_string(), "Me".to_string()),
        ],
    )
    .unwrap();

    let arr = root.get("identities").unwrap().as_array().unwrap();
    assert_eq!(arr.len(), 1);

    let elem = &arr[0];
    assert_eq!(elem.get("identity").unwrap().as_str().unwrap(), "me");
    assert_eq!(
        elem.get("email").unwrap().as_str().unwrap(),
        "me@example.com"
    );
}

#[test]
fn test_add_keyed_with_seed() {
    let mut root = Value::Object(Default::default());
    let keyed = [KeyedList {
        prefix: "identities",
        slug_field: "identity",
    }];
    root.as_object_mut()
        .unwrap()
        .insert("identities".to_string(), Value::Array(vec![]));

    let mut seed_obj = ObjectMap::new();
    seed_obj.insert("enabled".to_string(), Value::Bool(true));
    seed_obj.insert("role".to_string(), Value::String("user".to_string()));
    seed_obj.insert(
        "email".to_string(),
        Value::String("default@example.com".to_string()),
    );
    let seed = Value::Object(seed_obj);

    add_keyed(
        &mut root,
        "identities",
        "alice",
        &keyed,
        Some(&seed),
        &[("email".to_string(), "alice@example.com".to_string())],
    )
    .unwrap();

    let elem = &root.get("identities").unwrap().as_array().unwrap()[0];
    assert_eq!(elem.get("identity").unwrap().as_str().unwrap(), "alice");
    assert_eq!(elem.get("role").unwrap().as_str().unwrap(), "user");
    assert!(elem.get("enabled").unwrap().as_bool().unwrap());
    assert_eq!(
        elem.get("email").unwrap().as_str().unwrap(),
        "alice@example.com"
    );
}

#[test]
fn test_remove_keyed() {
    let mut root = Value::Object(Default::default());
    let keyed = [KeyedList {
        prefix: "identities",
        slug_field: "identity",
    }];

    let mut elem1 = Value::Object(Default::default());
    elem1
        .as_object_mut()
        .unwrap()
        .insert("identity".to_string(), Value::String("me".to_string()));

    let mut elem2 = Value::Object(Default::default());
    elem2
        .as_object_mut()
        .unwrap()
        .insert("identity".to_string(), Value::String("other".to_string()));

    root.as_object_mut()
        .unwrap()
        .insert("identities".to_string(), Value::Array(vec![elem1, elem2]));

    remove_keyed(&mut root, "identities", "me", &keyed).unwrap();

    let arr = root.get("identities").unwrap().as_array().unwrap();
    assert_eq!(arr.len(), 1);
    assert_eq!(arr[0].get("identity").unwrap().as_str().unwrap(), "other");
}
