use matugen::json::{color_entry, merge_json, JsonValue};

fn obj(entries: Vec<(&str, JsonValue)>) -> JsonValue {
    JsonValue::Object(entries.into_iter().map(|(k, v)| (k.to_string(), v)).collect())
}

fn s(t: &str) -> JsonValue {
    JsonValue::String(t.to_string())
}

fn get<'a>(v: &'a JsonValue, key: &str) -> Option<&'a JsonValue> {
    match v {
        JsonValue::Object(es) => es.iter().find(|(k, _)| k == key).map(|(_, v)| v),
        _ => None,
    }
}

fn text(v: Option<&JsonValue>) -> Option<String> {
    match v {
        Some(JsonValue::String(t)) => Some(t.clone()),
        _ => None,
    }
}

#[test]
fn merge_objects_key_by_key() {
    let mut a = obj(vec![("x", s("1")), ("nested", obj(vec![("p", s("a")), ("q", s("b"))]))]);
    let b = obj(vec![("y", s("2")), ("nested", obj(vec![("q", s("c")), ("r", s("d"))]))]);
    merge_json(&mut a, b);
    assert_eq!(text(get(&a, "x")), Some("1".to_string()));
    assert_eq!(text(get(&a, "y")), Some("2".to_string()));
    let nested = get(&a, "nested").unwrap();
    assert_eq!(text(get(nested, "p")), Some("a".to_string()));
    assert_eq!(text(get(nested, "q")), Some("c".to_string()));
    assert_eq!(text(get(nested, "r")), Some("d".to_string()));
    match &a {
        JsonValue::Object(es) => {
            let keys: Vec<&str> = es.iter().map(|(k, _)| k.as_str()).collect();
            assert_eq!(keys, vec!["x", "nested", "y"]);
        }
        _ => panic!("not an object"),
    }
}

#[test]
fn merge_arrays_appends() {
    let mut a = JsonValue::Array(vec![s("a")]);
    merge_json(&mut a, JsonValue::Array(vec![s("b"), s("c")]));
    match a {
        JsonValue::Array(items) => {
            let texts: Vec<String> = items.iter().map(|v| text(Some(v)).unwrap()).collect();
            assert_eq!(texts, vec!["a", "b", "c"]);
        }
        _ => panic!("not an array"),
    }
}

#[test]
fn merge_other_values_replaces() {
    let mut a = obj(vec![("x", s("1"))]);
    merge_json(&mut a, JsonValue::Bool(true));
    assert!(matches!(a, JsonValue::Bool(true)));
    let mut n = JsonValue::Number("1".to_string());
    merge_json(&mut n, obj(vec![("k", JsonValue::Null)]));
    assert!(matches!(get(&n, "k"), Some(JsonValue::Null)));
}

#[test]
fn merge_empty_object_keeps_entries() {
    let mut a = obj(vec![("x", s("1")), ("y", s("2"))]);
    merge_json(&mut a, obj(vec![]));
    match &a {
        JsonValue::Object(es) => assert_eq!(es.len(), 2),
        _ => panic!("not an object"),
    }
    assert_eq!(text(get(&a, "y")), Some("2".to_string()));
}

#[test]
fn color_entry_object() {
    let e = color_entry("#ffffff".to_string());
    assert_eq!(text(get(&e, "color")), Some("#ffffff".to_string()));
}
