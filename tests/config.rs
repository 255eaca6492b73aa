use dprint_plugin_json::{
    resolve_config, ConfigKeyMap, ConfigKeyValue, ConfigurationBuilder, GlobalConfiguration, NewLineKind,
    TrailingCommaKind,
};

fn map_of(entries: Vec<(&str, ConfigKeyValue)>) -> ConfigKeyMap {
    let mut map = ConfigKeyMap::new();
    for (key, value) in entries {
        map.insert(key.to_string(), value);
    }
    map
}

#[test]
fn check_all_values_set() {
    let mut config = ConfigurationBuilder::new();
    config
        .new_line_kind(NewLineKind::CarriageReturnLineFeed)
        .line_width(90)
        .use_tabs(true)
        .indent_width(4)
        .new_line_kind(NewLineKind::CarriageReturnLineFeed)
        .comment_line_force_space_after_slashes(false)
        .prefer_single_line(true)
        .array_prefer_single_line(true)
        .object_prefer_single_line(false)
        .ignore_node_comment_text("deno-fmt-ignore");

    let inner_config = config.get_inner_config();
    assert_eq!(inner_config.len(), 9);
    let diagnostics = resolve_config(inner_config, &GlobalConfiguration::default()).diagnostics;
    assert_eq!(diagnostics.len(), 0);
}

#[test]
fn handle_global_config() {
    let global_config = GlobalConfiguration {
        line_width: Some(90),
        use_tabs: Some(true),
        indent_width: None,
        new_line_kind: Some(NewLineKind::CarriageReturnLineFeed),
    };
    let mut config_builder = ConfigurationBuilder::new();
    let config = config_builder.global_config(global_config).build();
    assert_eq!(config.line_width, 90);
    assert_eq!(config.new_line_kind == NewLineKind::CarriageReturnLineFeed, true);
}

#[test]
fn use_json_defaults_when_global_not_set() {
    let global_config = GlobalConfiguration::default();
    let mut config_builder = ConfigurationBuilder::new();
    let config = config_builder.global_config(global_config).build();
    assert_eq!(config.indent_width, 2);
    assert_eq!(config.new_line_kind == NewLineKind::LineFeed, true);
}

#[test]
fn support_deno_config() {
    let mut config_builder = ConfigurationBuilder::new();
    let config = config_builder.deno().build();
    assert_eq!(config.indent_width, 2);
    assert_eq!(config.line_width, 80);
    assert_eq!(config.new_line_kind == NewLineKind::LineFeed, true);
    assert_eq!(config.use_tabs, false);
    assert_eq!(config.comment_line_force_space_after_slashes, false);
    assert_eq!(config.ignore_node_comment_text, "deno-fmt-ignore");
    assert_eq!(config.array_prefer_single_line, false);
    assert_eq!(config.object_prefer_single_line, false);
}

#[test]
fn support_prefer_single_line_config() {
    let mut config_builder = ConfigurationBuilder::new();
    let config = config_builder.prefer_single_line(true).build();
    assert_eq!(config.array_prefer_single_line, true);
    assert_eq!(config.object_prefer_single_line, true);
}

#[test]
fn json_trailing_comma_files() {
    let global_config = GlobalConfiguration::default();
    {
        let result = resolve_config(
            map_of(vec![(
                "jsonTrailingCommaFiles",
                ConfigKeyValue::Array(vec![ConfigKeyValue::String("test.json".to_string())]),
            )]),
            &global_config,
        );
        assert!(result.diagnostics.is_empty());
        assert_eq!(result.config.json_trailing_comma_files, vec!["/test.json".to_string(), "\\test.json".to_string(),]);
    }
    {
        let result = resolve_config(
            map_of(vec![(
                "jsonTrailingCommaFiles",
                ConfigKeyValue::Array(vec![ConfigKeyValue::String("./test.json".to_string())]),
            )]),
            &global_config,
        );
        assert_eq!(
            result.diagnostics[0].message,
            "Element at index 0 starting with dot slash (./) is not supported. Remove the leading dot slash."
        );
    }
    {
        let result = resolve_config(
            map_of(vec![("jsonTrailingCommaFiles", ConfigKeyValue::Array(vec![ConfigKeyValue::Number(5)]))]),
            &global_config,
        );
        assert_eq!(result.diagnostics[0].message, "Expected element at index 0 to be a string.");
    }
}

#[test]
fn trailing_comma_files_with_separators_get_both_forms() {
    let result = resolve_config(
        map_of(vec![(
            "jsonTrailingCommaFiles",
            ConfigKeyValue::Array(vec![
                ConfigKeyValue::String(".vscode/settings.json".to_string()),
                ConfigKeyValue::String("\\a\\b.json".to_string()),
            ]),
        )]),
        &GlobalConfiguration::default(),
    );
    assert!(result.diagnostics.is_empty());
    assert_eq!(
        result.config.json_trailing_comma_files,
        vec![
            "\\.vscode\\settings.json".to_string(),
            "/.vscode/settings.json".to_string(),
            "\\a\\b.json".to_string(),
            "/a/b.json".to_string(),
        ]
    );
}

#[test]
fn trailing_comma_files_must_be_an_array() {
    let result = resolve_config(
        map_of(vec![("jsonTrailingCommaFiles", ConfigKeyValue::String("a.json".to_string()))]),
        &GlobalConfiguration::default(),
    );
    assert_eq!(result.diagnostics.len(), 1);
    assert_eq!(result.diagnostics[0].property_name, "jsonTrailingCommaFiles");
    assert_eq!(result.diagnostics[0].message, "Expected an array.");
    assert!(result.config.json_trailing_comma_files.is_empty());
}

#[test]
fn defaults_without_any_setting() {
    let result = resolve_config(ConfigKeyMap::new(), &GlobalConfiguration::default());
    assert!(result.diagnostics.is_empty());
    let config = result.config;
    assert_eq!(config.line_width, 120);
    assert_eq!(config.indent_width, 2);
    assert_eq!(config.use_tabs, false);
    assert!(config.new_line_kind == NewLineKind::LineFeed);
    assert_eq!(config.comment_line_force_space_after_slashes, true);
    assert_eq!(config.ignore_node_comment_text, "dprint-ignore");
    assert!(config.trailing_commas == TrailingCommaKind::Jsonc);
    assert!(config.json_trailing_comma_files.is_empty());
}

#[test]
fn explicit_values_win_over_the_deno_preset() {
    let result = resolve_config(
        map_of(vec![
            ("deno", ConfigKeyValue::Bool(true)),
            ("lineWidth", ConfigKeyValue::Number(100)),
        ]),
        &GlobalConfiguration::default(),
    );
    assert!(result.diagnostics.is_empty());
    assert_eq!(result.config.line_width, 100);
    assert_eq!(result.config.ignore_node_comment_text, "deno-fmt-ignore");
    assert_eq!(result.config.comment_line_force_space_after_slashes, false);
}

#[test]
fn single_line_settings_override_the_shared_one() {
    let result = resolve_config(
        map_of(vec![
            ("preferSingleLine", ConfigKeyValue::Bool(true)),
            ("object.preferSingleLine", ConfigKeyValue::Bool(false)),
        ]),
        &GlobalConfiguration::default(),
    );
    assert_eq!(result.config.array_prefer_single_line, true);
    assert_eq!(result.config.object_prefer_single_line, false);
}

#[test]
fn wrong_types_and_unknown_keys_are_diagnosed_in_order() {
    let result = resolve_config(
        map_of(vec![
            ("zzz", ConfigKeyValue::Bool(true)),
            ("lineWidth", ConfigKeyValue::String("wide".to_string())),
            ("trailingCommas", ConfigKeyValue::String("sometimes".to_string())),
            ("newLineKind", ConfigKeyValue::String("crlf".to_string())),
            ("indentWidth", ConfigKeyValue::Number(300)),
            ("other", ConfigKeyValue::Null),
        ]),
        &GlobalConfiguration::default(),
    );
    let names: Vec<&str> = result.diagnostics.iter().map(|d| d.property_name.as_str()).collect();
    assert_eq!(names, vec!["lineWidth", "indentWidth", "trailingCommas", "zzz", "other"]);
    assert_eq!(result.diagnostics[3].message, "Unknown property in configuration");
    assert_eq!(result.config.line_width, 120);
    assert_eq!(result.config.indent_width, 2);
    assert!(result.config.new_line_kind == NewLineKind::CarriageReturnLineFeed);
    assert!(result.config.trailing_commas == TrailingCommaKind::Jsonc);
}

#[test]
fn trailing_comma_names_resolve() {
    for (name, kind) in [
        ("always", TrailingCommaKind::Always),
        ("never", TrailingCommaKind::Never),
        ("maintain", TrailingCommaKind::Maintain),
        ("jsonc", TrailingCommaKind::Jsonc),
    ] {
        let result = resolve_config(
            map_of(vec![("trailingCommas", ConfigKeyValue::String(name.to_string()))]),
            &GlobalConfiguration::default(),
        );
        assert!(result.diagnostics.is_empty());
        assert!(result.config.trailing_commas == kind);
    }
}

#[test]
fn inserting_a_key_again_replaces_its_value() {
    let mut map = ConfigKeyMap::new();
    map.insert("lineWidth".to_string(), ConfigKeyValue::Number(10));
    map.insert("useTabs".to_string(), ConfigKeyValue::Bool(true));
    map.insert("lineWidth".to_string(), ConfigKeyValue::Number(20));
    assert_eq!(map.len(), 2);
    assert_eq!(map.key_at(0), "lineWidth");
    assert!(matches!(map.get("lineWidth"), Some(ConfigKeyValue::Number(20))));
    assert!(map.get("indentWidth").is_none());
}
