use sysctl_conf::{SysctlConfig, Value};

fn config_of(pairs: &[(&str, &str)]) -> SysctlConfig {
    let mut config = SysctlConfig::new();
    for (key, value) in pairs {
        config.insert(key, value).expect("insertable key");
    }
    config
}

#[test]
fn dotted_keys_build_nested_tables() {
    let config = config_of(&[
        ("log.file", "/var/log/console.log"),
        ("log.name", "default.log"),
    ]);

    let log = config
        .get("log")
        .and_then(Value::as_table)
        .expect("nested table");
    assert_eq!(log.keys().into_iter().collect::<Vec<_>>(), ["file", "name"]);
    assert_eq!(config.get_str("log.name"), Some("default.log"));
}

#[test]
fn get_str_returns_none_for_intermediate_key() {
    let config = config_of(&[("log.file", "/var/log/console.log")]);
    assert_eq!(config.get_str("log"), None);
    assert_eq!(config.get("missing"), None);
}

#[test]
fn scalar_key_cannot_gain_children() {
    let mut config = config_of(&[("log", "true")]);
    assert_eq!(
        config.insert("log.file", "/var/log/console.log"),
        Err("key `log` already holds a value and cannot have children".to_string())
    );
}

#[test]
fn nested_key_cannot_become_scalar() {
    let mut config = config_of(&[("log.file", "/var/log/console.log")]);
    assert_eq!(
        config.insert("log", "true"),
        Err("key `log` already holds child keys and cannot hold a value".to_string())
    );
}

#[test]
fn empty_segments_are_rejected() {
    let mut config = SysctlConfig::new();
    for key in [".log", "log.", "log..file", ""] {
        assert_eq!(
            config.insert(key, "x"),
            Err("key contains an empty segment".to_string()),
            "key `{key}` must be rejected"
        );
    }
}

#[test]
fn insert_then_get_str_reads_the_value_back() {
    let mut config = SysctlConfig::new();
    config.insert("a.b.c", "deep").expect("insertable");
    config.insert("a.b.d", "other").expect("insertable");
    config.insert("a.b.c", "again").expect("insertable");
    assert_eq!(config.get_str("a.b.c"), Some("again"));
    assert_eq!(config.get_str("a.b.d"), Some("other"));
    assert!(config.get("a.b").map(Value::is_table).unwrap_or(false));
}

#[test]
fn deeper_error_names_the_walked_prefix() {
    let mut config = config_of(&[("a.b", "1")]);
    assert_eq!(
        config.insert("a.b.c", "2"),
        Err("key `a.b` already holds a value and cannot have children".to_string())
    );
    assert_eq!(
        config.insert("a", "2"),
        Err("key `a` already holds child keys and cannot hold a value".to_string())
    );
    assert_eq!(config.get_str("a.b"), Some("1"));
}

#[test]
fn failed_insert_keeps_tables_created_before_the_failure() {
    let mut config = SysctlConfig::new();
    assert_eq!(
        config.insert("log.", "x"),
        Err("key contains an empty segment".to_string())
    );
    assert!(config.get("log").map(Value::is_table).unwrap_or(false));
    assert_eq!(config.to_json(), r#"{"log":{}}"#);
}

#[test]
fn flatten_lists_leaves_with_dotted_keys_in_order() {
    let config = config_of(&[
        ("endpoint", "localhost:3000"),
        ("log.file", "/var/log/console.log"),
        ("debug", "true"),
        ("log.name", "default.log"),
    ]);
    let flat = config.flatten();
    let expected: Vec<(String, &str)> = vec![
        ("endpoint".to_string(), "localhost:3000"),
        ("log.file".to_string(), "/var/log/console.log"),
        ("log.name".to_string(), "default.log"),
        ("debug".to_string(), "true"),
    ];
    assert_eq!(flat, expected);
    for (key, value) in &flat {
        assert_eq!(config.get_str(key), Some(*value));
    }
}

#[test]
fn root_and_json_show_the_nesting() {
    let config = config_of(&[("endpoint", "localhost:3000"), ("log.file", "/var/log/console.log")]);
    assert_eq!(config.root().keys(), ["endpoint", "log"]);
    assert_eq!(
        config.to_json(),
        r#"{"endpoint":"localhost:3000","log":{"file":"/var/log/console.log"}}"#
    );
    assert_eq!(
        config.to_json_pretty(),
        "{\n  \"endpoint\": \"localhost:3000\",\n  \"log\": {\n    \"file\": \"/var/log/console.log\"\n  }\n}"
    );
}

#[test]
fn clone_and_default_give_equal_and_empty_configurations() {
    let config = config_of(&[("log.file", "/var/log/console.log")]);
    let copy = config.clone();
    assert_eq!(copy, config);
    assert_eq!(copy.get_str("log.file"), Some("/var/log/console.log"));
    let empty = SysctlConfig::default();
    assert_eq!(empty, SysctlConfig::new());
    assert!(empty.flatten().is_empty());
}

#[test]
fn failed_insert_leaves_the_flattened_leaves_unchanged() {
    let mut config = config_of(&[("log", "true"), ("net.port", "80")]);
    let before: Vec<(String, String)> = config
        .flatten()
        .into_iter()
        .map(|(k, v)| (k, v.to_string()))
        .collect();
    assert!(config.insert("log.file", "x").is_err());
    assert!(config.insert("net", "y").is_err());
    assert!(config.insert("a..b", "z").is_err());
    let after: Vec<(String, String)> = config
        .flatten()
        .into_iter()
        .map(|(k, v)| (k, v.to_string()))
        .collect();
    assert_eq!(after, before);
}

#[test]
fn insert_adds_one_leaf_for_a_new_key_and_none_for_an_overwrite() {
    let mut config = config_of(&[("log.file", "a.log")]);
    assert_eq!(config.flatten().len(), 1);
    config.insert("log.name", "b").unwrap();
    assert_eq!(config.flatten().len(), 2);
    config.insert("log.file", "c.log").unwrap();
    assert_eq!(config.flatten().len(), 2);
    assert_eq!(config.get_str("log.file"), Some("c.log"));
}

#[test]
fn insert_changes_no_other_key() {
    let mut config = config_of(&[("endpoint", "localhost"), ("log.file", "a.log")]);
    config.insert("log.name", "b").unwrap();
    assert_eq!(config.get_str("endpoint"), Some("localhost"));
    assert_eq!(config.get_str("log.file"), Some("a.log"));
    assert_eq!(config.get_str("log"), None);
    assert_eq!(config.get_str("debug"), None);
    assert_eq!(config.get_str("log.name.x"), None);
}

#[test]
fn keys_with_an_empty_part_read_nothing() {
    let config = config_of(&[("log.file", "a.log"), ("debug", "true")]);
    for key in ["", ".", "log.", ".log", "log..file", ".debug", "debug."] {
        assert_eq!(config.get(key), None);
        assert_eq!(config.get_str(key), None);
    }
}

#[test]
fn flatten_lists_each_key_once_and_exactly_the_keys_that_read_strings() {
    let config = config_of(&[
        ("a.b", "1"),
        ("c", "2"),
        ("a.d.e", "3"),
        ("a.b", "4"),
        ("c", "5"),
    ]);
    let flat = config.flatten();
    assert_eq!(flat.len(), 3);
    for (i, (key, value)) in flat.iter().enumerate() {
        assert_eq!(config.get_str(key), Some(*value));
        for (other, _) in flat.iter().skip(i + 1) {
            assert_ne!(key, other);
        }
    }
    for key in ["a", "a.d", "a.b.x", "e"] {
        assert!(config.get_str(key).is_none());
        assert!(!flat.iter().any(|(k, _)| k == key));
    }
}

#[test]
fn dotted_key_reads_the_prefix_table_then_the_last_part() {
    let config = config_of(&[("a.b.c", "1"), ("a.d", "2"), ("e", "3")]);
    for (prefix, part) in [("a", "b"), ("a", "d"), ("a.b", "c"), ("a", "x"), ("e", "f"), ("z", "b")] {
        let dotted = format!("{prefix}.{part}");
        let stepwise = config
            .get(prefix)
            .and_then(Value::as_table)
            .and_then(|t| t.get(part));
        assert_eq!(config.get(&dotted), stepwise);
    }
    assert_eq!(config.get("e"), config.root().get("e"));
    assert_eq!(config.get("a"), config.root().get("a"));
}
