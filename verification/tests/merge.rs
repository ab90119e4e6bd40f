use smve_asset_pack::config::{
    merge_option_table, merge_table, CompressionOptions, Configuration, DirectoryConfiguration, OptionTable,
    OptionValue, UncookerSettings,
};

const HIGHER: &str = r#"
override = "overridden"
only_in_high = "only_in_high"

[table]
override = "overridden"
only_in_high = "only_in_high"
        "#;

const LOWER: &str = r#"
override = "not_overridden"
only_in_low = "only_in_low"

[table]
override = "not_overridden"
only_in_low = "only_in_low"
        "#;

const EXPECTED_RESULT: &str = r#"
override = "overridden"
only_in_high = "only_in_high"
only_in_low = "only_in_low"

[table]
override = "overridden"
only_in_high = "only_in_high"
only_in_low = "only_in_low"
        "#;

fn convert(table: toml::Table) -> OptionTable {
    let mut entries = Vec::new();
    for (key, value) in table {
        let value = match value {
            toml::Value::Table(t) => OptionValue::Table(convert(t)),
            other => OptionValue::Leaf(other.to_string()),
        };
        entries.push((key, value));
    }
    OptionTable { entries }
}

fn parse(text: &str) -> OptionTable {
    convert(toml::from_str(text).unwrap())
}

fn value_eq(a: &OptionValue, b: &OptionValue) -> bool {
    match (a, b) {
        (OptionValue::Leaf(x), OptionValue::Leaf(y)) => x == y,
        (OptionValue::Table(x), OptionValue::Table(y)) => table_eq(x, y),
        _ => false,
    }
}

// Tables are maps: compared key by key, whatever the order of their entries.
fn table_eq(a: &OptionTable, b: &OptionTable) -> bool {
    a.entries.len() == b.entries.len()
        && a.entries.iter().all(|(k, v)| {
            b.entries.iter().any(|(k2, v2)| k == k2 && value_eq(v, v2))
        })
}

fn option_eq(a: &Option<OptionTable>, b: &Option<OptionTable>) -> bool {
    match (a, b) {
        (None, None) => true,
        (Some(x), Some(y)) => table_eq(x, y),
        _ => false,
    }
}

#[test]
fn merge_table_test() {
    let mut higher = parse(HIGHER);
    let lower = parse(LOWER);
    let expected_result = parse(EXPECTED_RESULT);

    merge_table(&mut higher, lower);

    assert!(table_eq(&expected_result, &higher));
}

#[test]
fn merge_option_table_some_none() {
    let mut higher = Some(parse(HIGHER));
    let expected_result = Some(parse(HIGHER));

    merge_option_table(&mut higher, None);

    assert!(option_eq(&expected_result, &higher));
}

#[test]
fn merge_option_table_none_some() {
    let mut higher: Option<OptionTable> = None;
    let lower = Some(parse(LOWER));
    let expected_result = Some(parse(LOWER));

    merge_option_table(&mut higher, lower);

    assert!(option_eq(&expected_result, &higher));
}

#[test]
fn merge_option_table_both_none() {
    let mut higher: Option<OptionTable> = None;

    merge_option_table(&mut higher, None);

    assert!(higher.is_none());
}

#[test]
fn merge_option_table_both_some() {
    let mut higher = Some(parse(HIGHER));
    let lower = Some(parse(LOWER));
    let expected_result = Some(parse(EXPECTED_RESULT));

    merge_option_table(&mut higher, lower);

    assert!(option_eq(&expected_result, &higher));
}

#[test]
fn merging_a_table_over_a_leaf_keeps_the_leaf() {
    let mut higher = parse("a = 1\n");
    merge_table(&mut higher, parse("[a]\nb = 2\n"));
    assert!(table_eq(&higher, &parse("a = 1\n")));
}

#[test]
fn new_keys_come_after_the_others() {
    let mut higher = parse("b = 1\n");
    merge_table(&mut higher, parse("a = 2\n"));
    let keys: Vec<&str> = higher.entries.iter().map(|(k, _)| k.as_str()).collect();
    assert_eq!(keys, vec!["b", "a"]);
}

#[test]
fn configurations_fill_unset_settings() {
    let mut file = Configuration::empty();
    file.compression = Some(CompressionOptions { enabled: Some(true), level: None });
    file.merge(Configuration::default());
    let c = file.compression.unwrap();
    assert_eq!(c.enabled, Some(true));
    assert_eq!(c.level, Some(4));
    let u = file.uncooker.unwrap();
    assert_eq!(u.enabled, Some(true));
    assert!(u.uncooker_path.is_none());
    assert_eq!(file.super_secret_option.unwrap().len(), 8);
}

#[test]
fn uncooker_settings_merge_paths_and_options() {
    let mut high = UncookerSettings { enabled: None, uncooker_path: Some("x".to_string()), options: Some(parse("a = 1\n")) };
    let low = UncookerSettings { enabled: Some(false), uncooker_path: Some("y".to_string()), options: Some(parse("b = 2\n")) };
    high.merge(low);
    assert_eq!(high.enabled, Some(false));
    assert_eq!(high.uncooker_path.as_deref(), Some("x"));
    assert!(table_eq(high.options.as_ref().unwrap(), &parse("a = 1\nb = 2\n")));
}

#[test]
fn directory_configurations_append_globs() {
    let mut high = DirectoryConfiguration::empty();
    high.glob_configs.push(("a/*.txt".to_string(), Configuration::empty()));
    let mut low = DirectoryConfiguration::default();
    low.glob_configs.push(("b/*.txt".to_string(), Configuration::empty()));
    high.merge(low);
    let globs: Vec<&str> = high.glob_configs.iter().map(|(g, _)| g.as_str()).collect();
    assert_eq!(globs, vec!["a/*.txt", "b/*.txt"]);
    let dir = high.dir_config.unwrap();
    assert_eq!(dir.compression.unwrap().level, Some(4));
}
