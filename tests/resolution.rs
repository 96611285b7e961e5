use tedlt::jira::{
    board_epics_url, boards_url, browse_url, create_issue_body, create_issue_url, fields_url,
    project_url, ticket_url,
};
use tedlt::{
    resolve_profile, Args, CliOverrides, Commands, ConfigError, ConfigFile, CreateCommand,
    InfoCommand, InfoSubCommand, JsonValue, ProfileDef, ProfilesResolver, PropertiesResolver,
    ResolvedConfig, ResolverError, ValueResolver, ENVIRONMENT_URL_FIRST,
};

#[allow(dead_code)]
fn from_serde(v: &serde_json::Value) -> JsonValue {
    match v {
        serde_json::Value::Null => JsonValue::Null,
        serde_json::Value::Bool(b) => JsonValue::Bool(*b),
        serde_json::Value::Number(n) => JsonValue::Number(n.to_string()),
        serde_json::Value::String(text) => JsonValue::String(text.clone()),
        serde_json::Value::Array(items) => JsonValue::Array(items.iter().map(from_serde).collect()),
        serde_json::Value::Object(entries) => JsonValue::Object(
            entries
                .iter()
                .map(|(k, v)| (k.clone(), from_serde(v)))
                .collect(),
        ),
    }
}

#[allow(dead_code)]
fn s(v: &JsonValue) -> serde_json::Value {
    match v {
        JsonValue::Null => serde_json::Value::Null,
        JsonValue::Bool(b) => serde_json::Value::Bool(*b),
        JsonValue::Number(n) => serde_json::from_str(n).unwrap(),
        JsonValue::String(text) => serde_json::Value::String(text.clone()),
        JsonValue::Array(items) => serde_json::Value::Array(items.iter().map(s).collect()),
        JsonValue::Object(entries) => serde_json::Value::Object(
            entries.iter().map(|(k, v)| (k.clone(), s(v))).collect(),
        ),
    }
}

#[allow(dead_code)]
fn j(text: &str) -> JsonValue {
    from_serde(&sj(text))
}

#[allow(dead_code)]
fn sj(text: &str) -> serde_json::Value {
    json5::from_str(text).unwrap()
}

fn text_field(v: &serde_json::Value, key: &str) -> Option<String> {
    v.get(key).and_then(|x| x.as_str()).map(|x| x.to_string())
}

fn parse_profile(p: &serde_json::Value) -> ProfileDef {
    ProfileDef {
        jira_url: text_field(p, "jira_url"),
        project_key: text_field(p, "project_key"),
        fields: p.get("fields").filter(|f| !f.is_null()).map(from_serde),
        inherits: p
            .get("inherits")
            .and_then(|x| x.as_array())
            .map(|names| {
                names
                    .iter()
                    .filter_map(|n| n.as_str())
                    .map(|n| n.to_string())
                    .collect()
            })
            .unwrap_or_default(),
    }
}

fn parse_config(text: &str) -> ConfigFile {
    let root = sj(text);
    let properties = match root.get("properties") {
        Some(serde_json::Value::Object(m)) => {
            m.iter().map(|(k, v)| (k.clone(), from_serde(v))).collect()
        }
        _ => Vec::new(),
    };
    let profiles = match root.get("profiles") {
        Some(serde_json::Value::Object(m)) => m
            .iter()
            .map(|(name, p)| (name.clone(), parse_profile(p)))
            .collect(),
        _ => Vec::new(),
    };
    ConfigFile {
        jira_url: text_field(&root, "jira_url"),
        project_key: text_field(&root, "project_key"),
        properties,
        profiles,
    }
}

fn profile(url: Option<&str>, key: Option<&str>, fields: Option<&str>, inherits: &[&str]) -> ProfileDef {
    ProfileDef {
        jira_url: url.map(|u| u.to_string()),
        project_key: key.map(|k| k.to_string()),
        fields: fields.map(j),
        inherits: inherits.iter().map(|n| n.to_string()).collect(),
    }
}

fn names(list: &[&str]) -> Vec<String> {
    list.iter().map(|n| n.to_string()).collect()
}

#[test]
fn merge_examples() {
    let merged = ProfilesResolver::deep_merge_json(
        j(r#"{"a": {"x": 1, "y": 2}}"#),
        j(r#"{"a": {"y": 3, "z": 4}}"#),
    );
    assert_eq!(s(&merged), sj(r#"{"a": {"x": 1, "y": 3, "z": 4}}"#));
    let merged = ProfilesResolver::deep_merge_json(j(r#"{"labels": ["a"]}"#), j(r#"{"labels": ["b"]}"#));
    assert_eq!(s(&merged), sj(r#"{"labels": ["a", "b"]}"#));
    let merged = ProfilesResolver::deep_merge_json(j(r#"{"n": 1}"#), j(r#"{"n": "s"}"#));
    assert_eq!(s(&merged), sj(r#"{"n": "s"}"#));
}

#[test]
fn merge_keeps_left_keys_first() {
    let left = JsonValue::Object(vec![
        ("b".to_string(), JsonValue::Number("1".to_string())),
        ("a".to_string(), JsonValue::Number("2".to_string())),
    ]);
    let right = JsonValue::Object(vec![
        ("c".to_string(), JsonValue::Null),
        ("b".to_string(), JsonValue::Bool(false)),
    ]);
    let merged = ProfilesResolver::deep_merge_json(left, right);
    assert_eq!(
        merged,
        JsonValue::Object(vec![
            ("b".to_string(), JsonValue::Bool(false)),
            ("a".to_string(), JsonValue::Number("2".to_string())),
            ("c".to_string(), JsonValue::Null),
        ])
    );
}

#[test]
fn merge_object_with_scalar_takes_right() {
    let merged = ProfilesResolver::deep_merge_json(j(r#"{"a": 1}"#), j(r#"[1]"#));
    assert_eq!(s(&merged), sj(r#"[1]"#));
    let merged = ProfilesResolver::deep_merge_json(j(r#"[1]"#), j(r#"{"a": 1}"#));
    assert_eq!(s(&merged), sj(r#"{"a": 1}"#));
}

fn resolve_with(props: &str, value: &str) -> Result<JsonValue, ConfigError> {
    let tree = match j(props) {
        JsonValue::Object(entries) => entries,
        _ => Vec::new(),
    };
    let index = PropertiesResolver::new(tree);
    let resolver = ValueResolver::new(&index);
    resolver.resolve(&j(value))
}

#[test]
fn template_examples() {
    let r = resolve_with(r#"{"parent_id": "12345"}"#, r#""${parent_id}""#).unwrap();
    assert_eq!(r, JsonValue::String("12345".to_string()));
    let r = resolve_with(r#"{"count": 7}"#, r#""${count}""#).unwrap();
    assert_eq!(r, JsonValue::Number("7".to_string()));
    let r = resolve_with(
        r#"{"issueTypes": {"epic": "10001"}, "parent_id": "12345"}"#,
        r#""${issueTypes.epic}-${parent_id}""#,
    )
    .unwrap();
    assert_eq!(r, JsonValue::String("10001-12345".to_string()));
    let r = resolve_with(r#"{}"#, r#""${missing}""#);
    assert_eq!(r, Err(ConfigError::VariableNotFound("missing".to_string())));
}

#[test]
fn template_single_marker_keeps_objects_and_arrays() {
    let r = resolve_with(r#"{"list": [1, 2], "obj": {"k": "v"}}"#, r#""${list}""#).unwrap();
    assert_eq!(s(&r), sj(r#"[1, 2]"#));
    let r = resolve_with(r#"{"list": [1, 2], "obj": {"k": "v"}}"#, r#""${obj.k}""#).unwrap();
    assert_eq!(s(&r), sj(r#""v""#));
    let r = resolve_with(r#"{"obj": {"k": "v"}}"#, r#""${obj}""#);
    assert_eq!(r, Err(ConfigError::VariableNotFound("obj".to_string())));
}

#[test]
fn template_interpolates_scalars_as_text() {
    let r = resolve_with(r#"{"b": true, "n": null, "x": 2}"#, r#""${b}/${n}/${x}""#).unwrap();
    assert_eq!(r, JsonValue::String("true/null/2".to_string()));
}

#[test]
fn template_rejects_complex_interpolation() {
    let r = resolve_with(r#"{"list": [1]}"#, r#""id-${list}""#);
    assert_eq!(
        r,
        Err(ConfigError::VariableNotFound(
            "Cannot interpolate complex type for variable 'list'".to_string()
        ))
    );
}

#[test]
fn template_first_failure_wins() {
    let r = resolve_with(r#"{"a": "1"}"#, r#"["${a}", "${b}", "${c}"]"#);
    assert_eq!(r, Err(ConfigError::VariableNotFound("b".to_string())));
}

#[test]
fn template_empty_marker_is_text() {
    let r = resolve_with(r#"{}"#, r#""a${}b""#).unwrap();
    assert_eq!(r, JsonValue::String("a${}b".to_string()));
}

#[test]
fn precedence_example() {
    let file = parse_config(
        r#"{"jira_url": "https://a", "project_key": "TOP", "profiles": {"work": {"project_key": "WORK"}}}"#,
    );
    let cli = CliOverrides {
        jira_url: None,
        project_key: Some("CLI".to_string()),
    };
    let resolved = file.resolve(&names(&["work"]), cli).unwrap();
    assert_eq!(resolved.jira_url, "https://a");
    assert_eq!(resolved.project_key, "CLI");
}

#[test]
fn later_requested_profile_wins() {
    let profiles = vec![
        ("first".to_string(), profile(None, None, Some(r#"{"f": "1"}"#), &[])),
        ("second".to_string(), profile(None, None, Some(r#"{"f": "2"}"#), &[])),
    ];
    let merged = resolve_profile(&profiles, &names(&["first", "second"])).unwrap().unwrap();
    assert_eq!(s(merged.fields.as_ref().unwrap()), sj(r#"{"f": "2"}"#));
}

#[test]
fn diamond_base_merged_once() {
    let profiles = vec![
        ("base".to_string(), profile(None, None, Some(r#"{"tags": ["base"]}"#), &[])),
        ("left".to_string(), profile(Some("https://left"), None, Some(r#"{"k": "left"}"#), &["base"])),
        ("right".to_string(), profile(Some("https://right"), None, Some(r#"{"k": "right"}"#), &["base"])),
        ("child".to_string(), profile(None, None, None, &["left", "right"])),
    ];
    let merged = resolve_profile(&profiles, &names(&["child"])).unwrap().unwrap();
    assert_eq!(merged.jira_url, Some("https://right".to_string()));
    let fields = s(merged.fields.as_ref().unwrap());
    assert_eq!(fields["k"], "right");
    // base's array would appear twice had base been merged twice
    assert_eq!(fields["tags"], sj(r#"["base"]"#));
}

#[test]
fn cycle_error_lists_the_loop() {
    let profiles = vec![
        ("a".to_string(), profile(None, None, None, &["b"])),
        ("b".to_string(), profile(None, None, None, &["a"])),
    ];
    let r = resolve_profile(&profiles, &names(&["a"]));
    assert_eq!(r, Err(ConfigError::CircularDependency("a -> b -> a".to_string())));
    let profiles = vec![("a".to_string(), profile(None, None, None, &["a"]))];
    let r = resolve_profile(&profiles, &names(&["a"]));
    assert_eq!(r, Err(ConfigError::CircularDependency("a -> a".to_string())));
}

#[test]
fn invalid_default_reached_transitively() {
    let profiles = vec![
        ("default".to_string(), profile(None, None, None, &["base"])),
        ("base".to_string(), profile(None, None, None, &[])),
        ("mine".to_string(), profile(None, None, None, &[])),
    ];
    let expected = Err(ConfigError::InvalidConfig(
        "The 'default' profile cannot have an 'inherits' field".to_string(),
    ));
    assert_eq!(resolve_profile(&profiles, &names(&["mine"])), expected);
    assert_eq!(resolve_profile(&profiles, &names(&[])), expected);
}

#[test]
fn default_comes_first_in_merge_order() {
    let profiles = vec![
        ("default".to_string(), profile(Some("https://default"), Some("D"), Some(r#"{"l": ["d"]}"#), &[])),
        ("p".to_string(), profile(None, None, Some(r#"{"l": ["p"]}"#), &[])),
        ("c".to_string(), profile(None, None, Some(r#"{"l": ["c"]}"#), &["p"])),
    ];
    let merged = resolve_profile(&profiles, &names(&["c"])).unwrap().unwrap();
    assert_eq!(s(merged.fields.as_ref().unwrap()), sj(r#"{"l": ["d", "p", "c"]}"#));
    assert_eq!(merged.project_key, Some("D".to_string()));
}

#[test]
fn no_profiles_and_no_request_gives_none() {
    let profiles: Vec<(String, ProfileDef)> = Vec::new();
    assert_eq!(resolve_profile(&profiles, &[]), Ok(None));
    assert_eq!(
        resolve_profile(&profiles, &names(&["x"])),
        Err(ConfigError::ProfileNotFound("x".to_string()))
    );
}

#[test]
fn missing_fields_are_reported() {
    let file = parse_config(r#"{"project_key": "P"}"#);
    let r = file.resolve(&[], CliOverrides::default());
    assert_eq!(r.unwrap_err(), ConfigError::MissingField("jira_url".to_string()));
    let file = parse_config(r#"{"jira_url": "https://example.com"}"#);
    let r = file.resolve(&[], CliOverrides::default());
    assert_eq!(r.unwrap_err(), ConfigError::MissingField("project_key".to_string()));
}

#[test]
fn invalid_url_is_reported() {
    let file = parse_config(r#"{"jira_url": "not a url", "project_key": "P"}"#);
    let r = file.resolve(&[], CliOverrides::default());
    assert_eq!(r.unwrap_err(), ConfigError::InvalidUrl("not a url".to_string()));
    let file = parse_config(r#"{"jira_url": "https://example.com", "project_key": "P"}"#);
    let r = file.resolve(&[], CliOverrides::default()).unwrap();
    assert_eq!(r.jira_url, "https://example.com");
}

#[test]
fn invalid_url_is_checked_before_project_key() {
    let file = parse_config(r#"{"jira_url": "relative/path"}"#);
    let r = file.resolve(&[], CliOverrides::default());
    assert_eq!(r.unwrap_err(), ConfigError::InvalidUrl("relative/path".to_string()));
}

#[test]
fn complete_with_a_rejected_url() {
    let file = parse_config(r#"{"project_key": "P"}"#);
    let r = ResolvedConfig::complete(&file, &None, &None, "https://x".to_string(), false);
    assert_eq!(r.unwrap_err(), ConfigError::InvalidUrl("https://x".to_string()));
    let r = ResolvedConfig::complete(&file, &None, &None, "https://x".to_string(), true).unwrap();
    assert_eq!(r.project_key, "P");
    assert_eq!(r.fields, None);
}

#[test]
fn environment_url_precedence() {
    let file = parse_config(r#"{"jira_url": "https://doc", "project_key": "P"}"#);
    let cli = CliOverrides {
        jira_url: Some("https://cli".to_string()),
        project_key: None,
    };
    let r = ResolvedConfig::build_with_env(&file, Some("https://env".to_string()), cli, &[]).unwrap();
    if ENVIRONMENT_URL_FIRST {
        assert_eq!(r.jira_url, "https://env");
    } else {
        assert_eq!(r.jira_url, "https://cli");
    }
    let r = ResolvedConfig::build_with_env(&file, Some("https://env".to_string()), CliOverrides::default(), &[])
        .unwrap();
    assert_eq!(r.jira_url, "https://env");
}

#[test]
fn fields_resolved_against_properties() {
    let file = parse_config(
        r#"{"jira_url": "https://x", "project_key": "P",
            "properties": {"ids": {"epic": 10}},
            "profiles": {"default": {"fields": {"parent": {"id": "${ids.epic}"}, "name": "E-${ids.epic}"}}}}"#,
    );
    let r = file.resolve(&[], CliOverrides::default()).unwrap();
    assert_eq!(s(r.fields.as_ref().unwrap()), sj(r#"{"parent": {"id": 10}, "name": "E-10"}"#));
    let file = parse_config(
        r#"{"jira_url": "https://x", "project_key": "P",
            "profiles": {"default": {"fields": {"a": "${nope}"}}}}"#,
    );
    let r = file.resolve(&[], CliOverrides::default());
    assert_eq!(r.unwrap_err(), ConfigError::VariableNotFound("nope".to_string()));
}

#[test]
fn resolver_error_converts() {
    let e: ConfigError = ConfigError::from(ResolverError::VariableNotFound("v".to_string()));
    assert_eq!(e, ConfigError::VariableNotFound("v".to_string()));
}

#[test]
fn request_addresses() {
    assert_eq!(create_issue_url("https://x"), "https://x/rest/api/3/issue");
    assert_eq!(ticket_url("https://x", "KAN-1"), "https://x/rest/api/3/issue/KAN-1");
    assert_eq!(project_url("https://x", "KAN"), "https://x/rest/api/3/project/KAN");
    assert_eq!(board_epics_url("https://x", 0), "https://x/rest/agile/1.0/board/0/epic");
    assert_eq!(board_epics_url("https://x", 1207), "https://x/rest/agile/1.0/board/1207/epic");
    assert_eq!(
        board_epics_url("https://x", u64::MAX),
        "https://x/rest/agile/1.0/board/18446744073709551615/epic"
    );
    assert_eq!(boards_url("https://x", None), "https://x/rest/agile/1.0/board");
    assert_eq!(
        boards_url("https://x", Some("KAN")),
        "https://x/rest/agile/1.0/board?projectKeyOrId=KAN"
    );
    assert_eq!(
        fields_url("https://x", "KAN", None),
        "https://x/rest/api/2/issue/createmeta?projectKeys=KAN&expand=projects.issuetypes.fields"
    );
    assert_eq!(
        fields_url("https://x", "KAN", Some("10001")),
        "https://x/rest/api/2/issue/createmeta?projectKeys=KAN&expand=projects.issuetypes.fields&issuetypeIds=10001"
    );
    assert_eq!(browse_url("https://x", "KAN-1"), "https://x/browse/KAN-1");
}

#[test]
fn issue_body_with_additional_fields() {
    let body = create_issue_body("KAN", "Fix it", &Some(j(r#"{"summary": "other", "labels": ["a"]}"#)));
    assert_eq!(
        s(&body),
        sj(r#"{"fields": {"project": {"key": "KAN"}, "summary": "other", "labels": ["a"]}}"#)
    );
    let body = create_issue_body("KAN", "Fix it", &None);
    assert_eq!(s(&body), sj(r#"{"fields": {"project": {"key": "KAN"}, "summary": "Fix it"}}"#));
    let body = create_issue_body("KAN", "Fix it", &Some(j(r#"[1]"#)));
    assert_eq!(s(&body), sj(r#"{"fields": {"project": {"key": "KAN"}, "summary": "Fix it"}}"#));
}

#[test]
fn command_line_profiles_and_overrides() {
    let args = Args {
        verbose: false,
        jira_url: Some("https://cli".to_string()),
        project_key: None,
        command: Commands::Create(CreateCommand {
            title: "t".to_string(),
            profile: names(&["a", "b"]),
        }),
    };
    assert_eq!(args.profile_names(), &names(&["a", "b"]));
    let o = args.overrides();
    assert_eq!(o.jira_url, Some("https://cli".to_string()));
    assert_eq!(o.project_key, None);
    let args = Args {
        verbose: true,
        jira_url: None,
        project_key: Some("K".to_string()),
        command: Commands::Info(InfoCommand {
            subcmd: InfoSubCommand::Boards { project: None },
            profile: names(&["c"]),
        }),
    };
    assert_eq!(args.profile_names(), &names(&["c"]));
    assert_eq!(args.overrides().project_key, Some("K".to_string()));
}

#[test]
fn properties_later_entry_wins() {
    let index = PropertiesResolver::new(vec![
        ("a.b".to_string(), j(r#"1"#)),
        ("a".to_string(), j(r#"{"b": 2}"#)),
    ]);
    assert_eq!(index.get("a.b"), Some(&JsonValue::Number("2".to_string())));
    assert_eq!(index.get("a"), None);
    assert_eq!(index.all().len(), 2);
}

#[test]
fn config_file_literal_round_trip() {
    let file = ConfigFile {
        jira_url: Some("https://x".to_string()),
        project_key: None,
        properties: Vec::new(),
        profiles: vec![("work".to_string(), profile(None, Some("W"), None, &[]))],
    };
    let r = file.resolve(&names(&["work"]), CliOverrides::default()).unwrap();
    assert_eq!(r.project_key, "W");
}
