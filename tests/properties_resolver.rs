use tedlt::{JsonValue, PropertiesResolver};

#[allow(dead_code)]
fn from_serde(v: &serde_json::Value) -> JsonValue {
    match v {
        serde_json::Value::Null => JsonValue::Null,
        serde_json::Value::Bool(b) => JsonValue::Bool(*b),
        serde_json::Value::Number(n) => JsonValue::Number(n.to_string()),
        serde_json::Value::String(text) => JsonValue::String(text.clone()),
        serde_json::Value::Array(items) => JsonValue::Array(items.iter().map(from_serde).collect()),
        serde_json::Value::Object(entries) => JsonValue::Object(
            entries
                .iter()
                .map(|(k, v)| (k.clone(), from_serde(v)))
                .collect(),
        ),
    }
}

#[allow(dead_code)]
fn s(v: &JsonValue) -> serde_json::Value {
    match v {
        JsonValue::Null => serde_json::Value::Null,
        JsonValue::Bool(b) => serde_json::Value::Bool(*b),
        JsonValue::Number(n) => serde_json::from_str(n).unwrap(),
        JsonValue::String(text) => serde_json::Value::String(text.clone()),
        JsonValue::Array(items) => serde_json::Value::Array(items.iter().map(s).collect()),
        JsonValue::Object(entries) => serde_json::Value::Object(
            entries.iter().map(|(k, v)| (k.clone(), s(v))).collect(),
        ),
    }
}

#[allow(dead_code)]
fn j(text: &str) -> JsonValue {
    from_serde(&sj(text))
}

#[allow(dead_code)]
fn sj(text: &str) -> serde_json::Value {
    json5::from_str(text).unwrap()
}


#[test]
fn test_flatten_properties() {
    // {
    //   "parent_id": "12345",
    //   "issueTypes": {
    //     "epic": "10001"
    //   }
    // }
    let mut properties: Vec<(String, JsonValue)> = Vec::new();
    properties.push(("parent_id".to_string(), j(r#""12345""#)));

    let mut issue_types: Vec<(String, JsonValue)> = Vec::new();
    issue_types.push(("epic".to_string(), j(r#""10001""#)));
    properties.push(("issueTypes".to_string(), JsonValue::Object(issue_types)));

    let resolver = PropertiesResolver::new(properties);

    // Verify flattened properties
    assert_eq!(resolver.get("parent_id"), Some(&j(r#""12345""#)));
    assert_eq!(resolver.get("issueTypes.epic"), Some(&j(r#""10001""#)));

    // Verify nested key doesn't exist
    assert_eq!(resolver.get("issueTypes"), None);
}

#[test]
fn test_deeply_nested_properties() {
    // Test with deeper nesting: a.b.c.d = "value"
    let mut properties: Vec<(String, JsonValue)> = Vec::new();

    let inner_most = j(r#"{"d": "deep_value"}"#);
    let middle = JsonValue::Object(vec![("c".to_string(), inner_most)]);
    let outer = JsonValue::Object(vec![("b".to_string(), middle)]);
    properties.push(("a".to_string(), outer));

    let resolver = PropertiesResolver::new(properties);

    assert_eq!(resolver.get("a.b.c.d"), Some(&j(r#""deep_value""#)));
}

#[test]
fn test_multiple_nested_objects() {
    let mut properties: Vec<(String, JsonValue)> = Vec::new();
    properties.push((
        "config".to_string(),
        j(r#"{
            "database": {
                "host": "localhost",
                "port": 5432
            },
            "cache": {
                "enabled": true,
                "ttl": 3600
            }
        }"#),
    ));

    let resolver = PropertiesResolver::new(properties);

    assert_eq!(
        resolver.get("config.database.host"),
        Some(&j(r#""localhost""#))
    );
    assert_eq!(resolver.get("config.database.port"), Some(&j(r#"5432"#)));
    assert_eq!(resolver.get("config.cache.enabled"), Some(&j(r#"true"#)));
    assert_eq!(resolver.get("config.cache.ttl"), Some(&j(r#"3600"#)));
}

#[test]
fn test_mixed_types() {
    let mut properties: Vec<(String, JsonValue)> = Vec::new();
    properties.push(("string".to_string(), j(r#""text""#)));
    properties.push(("number".to_string(), j(r#"42"#)));
    properties.push(("boolean".to_string(), j(r#"true"#)));
    properties.push(("null".to_string(), j(r#"null"#)));
    properties.push(("array".to_string(), j(r#"[1, 2, 3]"#)));
    properties.push(("nested".to_string(), j(r#"{"key": "value"}"#)));

    let resolver = PropertiesResolver::new(properties);

    assert_eq!(resolver.get("string"), Some(&j(r#""text""#)));
    assert_eq!(resolver.get("number"), Some(&j(r#"42"#)));
    assert_eq!(resolver.get("boolean"), Some(&j(r#"true"#)));
    assert_eq!(resolver.get("null"), Some(&j(r#"null"#)));
    assert_eq!(resolver.get("array"), Some(&j(r#"[1, 2, 3]"#)));
    assert_eq!(resolver.get("nested.key"), Some(&j(r#""value""#)));
}

#[test]
fn test_empty_properties() {
    let properties: Vec<(String, JsonValue)> = Vec::new();
    let resolver = PropertiesResolver::new(properties);

    assert_eq!(resolver.all().len(), 0);
}

#[test]
fn test_all_method() {
    let mut properties: Vec<(String, JsonValue)> = Vec::new();
    properties.push(("a".to_string(), j(r#"{"b": "c"}"#)));

    let resolver = PropertiesResolver::new(properties);
    let all = resolver.all();

    assert_eq!(all.len(), 1);
    assert!(all.iter().any(|(key, _)| key == "a.b"));
}

