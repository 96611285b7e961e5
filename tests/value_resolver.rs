use tedlt::{ConfigError, JsonValue, PropertiesResolver, ValueResolver};

#[allow(dead_code)]
fn from_serde(v: &serde_json::Value) -> JsonValue {
    match v {
        serde_json::Value::Null => JsonValue::Null,
        serde_json::Value::Bool(b) => JsonValue::Bool(*b),
        serde_json::Value::Number(n) => JsonValue::Number(n.to_string()),
        serde_json::Value::String(text) => JsonValue::String(text.clone()),
        serde_json::Value::Array(items) => JsonValue::Array(items.iter().map(from_serde).collect()),
        serde_json::Value::Object(entries) => JsonValue::Object(
            entries
                .iter()
                .map(|(k, v)| (k.clone(), from_serde(v)))
                .collect(),
        ),
    }
}

#[allow(dead_code)]
fn s(v: &JsonValue) -> serde_json::Value {
    match v {
        JsonValue::Null => serde_json::Value::Null,
        JsonValue::Bool(b) => serde_json::Value::Bool(*b),
        JsonValue::Number(n) => serde_json::from_str(n).unwrap(),
        JsonValue::String(text) => serde_json::Value::String(text.clone()),
        JsonValue::Array(items) => serde_json::Value::Array(items.iter().map(s).collect()),
        JsonValue::Object(entries) => serde_json::Value::Object(
            entries.iter().map(|(k, v)| (k.clone(), s(v))).collect(),
        ),
    }
}

#[allow(dead_code)]
fn j(text: &str) -> JsonValue {
    from_serde(&sj(text))
}

#[allow(dead_code)]
fn sj(text: &str) -> serde_json::Value {
    json5::from_str(text).unwrap()
}


#[test]
fn test_resolve_simple_string() {
    let mut properties: Vec<(String, JsonValue)> = Vec::new();
    properties.push(("test".to_string(), j(r#""value""#)));
    let props_resolver = PropertiesResolver::new(properties);
    let resolver = ValueResolver::new(&props_resolver);

    let result = resolver.resolve(&j(r#""${test}""#)).expect("should resolve");
    assert_eq!(s(&result), sj(r#""value""#));
}

#[test]
fn test_resolve_preserves_type_for_single_variable() {
    let mut properties: Vec<(String, JsonValue)> = Vec::new();
    properties.push(("number".to_string(), j(r#"42"#)));
    properties.push(("boolean".to_string(), j(r#"true"#)));
    let props_resolver = PropertiesResolver::new(properties);
    let resolver = ValueResolver::new(&props_resolver);

    let result = resolver
        .resolve(&j(r#""${number}""#))
        .expect("should resolve");
    assert_eq!(s(&result), sj(r#"42"#));

    let result = resolver
        .resolve(&j(r#""${boolean}""#))
        .expect("should resolve");
    assert_eq!(s(&result), sj(r#"true"#));
}

#[test]
fn test_resolve_multiple_variables_in_string() {
    let mut properties: Vec<(String, JsonValue)> = Vec::new();
    properties.push(("var1".to_string(), j(r#""hello""#)));
    properties.push(("var2".to_string(), j(r#""world""#)));
    let props_resolver = PropertiesResolver::new(properties);
    let resolver = ValueResolver::new(&props_resolver);

    let result = resolver
        .resolve(&j(r#""${var1}-${var2}""#))
        .expect("should resolve");
    assert_eq!(s(&result), sj(r#""hello-world""#));
}

#[test]
fn test_resolve_mixed_text_and_variables() {
    let mut properties: Vec<(String, JsonValue)> = Vec::new();
    properties.push(("name".to_string(), j(r#""Alice""#)));
    properties.push(("age".to_string(), j(r#"30"#)));
    let props_resolver = PropertiesResolver::new(properties);
    let resolver = ValueResolver::new(&props_resolver);

    let result = resolver
        .resolve(&j(r#""User ${name} is ${age} years old""#))
        .expect("should resolve");
    assert_eq!(s(&result), sj(r#""User Alice is 30 years old""#));
}

#[test]
fn test_resolve_nested_property() {
    let mut properties: Vec<(String, JsonValue)> = Vec::new();
    properties.push((
        "config".to_string(),
        j(r#"{
            "database": {
                "host": "localhost"
            }
        }"#),
    ));
    let props_resolver = PropertiesResolver::new(properties);
    let resolver = ValueResolver::new(&props_resolver);

    let result = resolver
        .resolve(&j(r#""${config.database.host}""#))
        .expect("should resolve");
    assert_eq!(s(&result), sj(r#""localhost""#));
}

#[test]
fn test_resolve_non_template_string() {
    let props_resolver = PropertiesResolver::new(Vec::new());
    let resolver = ValueResolver::new(&props_resolver);

    let result = resolver
        .resolve(&j(r#""plain text""#))
        .expect("should return as-is");
    assert_eq!(s(&result), sj(r#""plain text""#));
}

#[test]
fn test_resolve_object_with_templates() {
    let mut properties: Vec<(String, JsonValue)> = Vec::new();
    properties.push(("id".to_string(), j(r#""12345""#)));
    let props_resolver = PropertiesResolver::new(properties);
    let resolver = ValueResolver::new(&props_resolver);

    let input = j(r#"{
        "parent": {
            "id": "${id}"
        }
    }"#);

    let result = resolver.resolve(&input).expect("should resolve");
    assert_eq!(s(&result)["parent"]["id"], sj(r#""12345""#));
}

#[test]
fn test_resolve_array_with_templates() {
    let mut properties: Vec<(String, JsonValue)> = Vec::new();
    properties.push(("val1".to_string(), j(r#""first""#)));
    properties.push(("val2".to_string(), j(r#""second""#)));
    let props_resolver = PropertiesResolver::new(properties);
    let resolver = ValueResolver::new(&props_resolver);

    let input = j(r#"["${val1}", "${val2}", "plain"]"#);

    let result = resolver.resolve(&input).expect("should resolve");
    assert_eq!(s(&result)[0], sj(r#""first""#));
    assert_eq!(s(&result)[1], sj(r#""second""#));
    assert_eq!(s(&result)[2], sj(r#""plain""#));
}

#[test]
fn test_resolve_preserves_non_string_types() {
    let props_resolver = PropertiesResolver::new(Vec::new());
    let resolver = ValueResolver::new(&props_resolver);

    let input = j(r#"{
        "number": 42,
        "boolean": true,
        "null": null,
        "array": [1, 2, 3]
    }"#);

    let result = resolver.resolve(&input).expect("should resolve");
    assert_eq!(result, input);
}

#[test]
fn test_resolve_variable_not_found() {
    let props_resolver = PropertiesResolver::new(Vec::new());
    let resolver = ValueResolver::new(&props_resolver);

    let result = resolver.resolve(&j(r#""${nonexistent}""#));
    assert!(result.is_err());
    assert!(matches!(
        result.unwrap_err(),
        ConfigError::VariableNotFound(_)
    ));
}

#[test]
fn test_resolve_deeply_nested_object() {
    let mut properties: Vec<(String, JsonValue)> = Vec::new();
    properties.push(("level1".to_string(), j(r#""value1""#)));
    properties.push(("level2".to_string(), j(r#""value2""#)));
    let props_resolver = PropertiesResolver::new(properties);
    let resolver = ValueResolver::new(&props_resolver);

    let input = j(r#"{
        "outer": {
            "middle": {
                "inner": "${level1}",
                "another": "${level2}"
            }
        }
    }"#);

    let result = resolver.resolve(&input).expect("should resolve");
    assert_eq!(s(&result)["outer"]["middle"]["inner"], sj(r#""value1""#));
    assert_eq!(s(&result)["outer"]["middle"]["another"], sj(r#""value2""#));
}

#[test]
fn test_resolve_combination() {
    let mut properties: Vec<(String, JsonValue)> = Vec::new();
    properties.push(("epic".to_string(), j(r#""10001""#)));
    properties.push(("parent_id".to_string(), j(r#""12345""#)));
    let props_resolver = PropertiesResolver::new(properties);
    let resolver = ValueResolver::new(&props_resolver);

    let result = resolver
        .resolve(&j(r#""${epic}-${parent_id}""#))
        .expect("should resolve");
    assert_eq!(s(&result), sj(r#""10001-12345""#));
}

#[test]
fn test_resolve_empty_string() {
    let props_resolver = PropertiesResolver::new(Vec::new());
    let resolver = ValueResolver::new(&props_resolver);

    let result = resolver.resolve(&j(r#""""#)).expect("should resolve");
    assert_eq!(s(&result), sj(r#""""#));
}

#[test]
fn test_resolve_string_with_escaped_braces() {
    let props_resolver = PropertiesResolver::new(Vec::new());
    let resolver = ValueResolver::new(&props_resolver);

    // Strings that look like templates but aren't complete
    let result = resolver
        .resolve(&j(r#""${incomplete""#))
        .expect("should resolve");
    assert_eq!(s(&result), sj(r#""${incomplete""#));

    let result = resolver
        .resolve(&j(r#""no}closure""#))
        .expect("should resolve");
    assert_eq!(s(&result), sj(r#""no}closure""#));
}

