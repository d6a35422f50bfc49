use sysctl_conf::{Table, Value};

#[test]
fn insert_keeps_original_position_when_overwriting() {
    let mut table = Table::new();
    table.insert("a", Value::String("1".into()));
    table.insert("b", Value::String("2".into()));
    table.insert("a", Value::String("3".into()));

    assert_eq!(table.keys().into_iter().collect::<Vec<_>>(), ["a", "b"]);
    assert_eq!(table.get("a").and_then(Value::as_str), Some("3"));
}

#[test]
fn child_table_creates_missing_entry() {
    let mut table = Table::new();
    table
        .child_table("log")
        .expect("newly created entry is a table")
        .insert("file", Value::String("/var/log/console.log".into()));

    let log = table.get("log").and_then(Value::as_table).expect("nested");
    assert_eq!(
        log.get("file").and_then(Value::as_str),
        Some("/var/log/console.log")
    );
}

#[test]
fn child_table_rejects_scalar_entry() {
    let mut table = Table::new();
    table.insert("log", Value::String("true".into()));
    assert!(table.child_table("log").is_none());
}

#[test]
fn serde_json_preserves_insertion_order() {
    let mut root = Table::new();
    root.insert("endpoint", Value::String("localhost:3000".into()));
    root.child_table("log")
        .expect("log is a table")
        .insert("file", Value::String("/var/log/console.log".into()));

    assert_eq!(
        root.to_json(),
        r#"{"endpoint":"localhost:3000","log":{"file":"/var/log/console.log"}}"#
    );
}

#[test]
fn new_table_is_empty() {
    let table = Table::new();
    assert!(table.keys().is_empty());
    assert!(table.iter().is_empty());
    assert_eq!(table.get("a"), None);
    assert_eq!(table.to_json(), "{}");
    assert_eq!(table.to_json_pretty(), "{}");
}

#[test]
fn get_after_insert_gives_the_value_and_leaves_other_keys() {
    let mut table = Table::new();
    table.insert("x", Value::String("1".into()));
    table.insert("y", Value::String("2".into()));
    table.insert("y", Value::String("20".into()));
    assert_eq!(table.get("y").and_then(Value::as_str), Some("20"));
    assert_eq!(table.get("x").and_then(Value::as_str), Some("1"));
    assert_eq!(table.get("z"), None);
}

#[test]
fn iter_lists_entries_in_insertion_order() {
    let mut table = Table::new();
    table.insert("b", Value::String("1".into()));
    table.insert("a", Value::String("2".into()));
    let items = table.iter();
    assert_eq!(items.len(), 2);
    assert_eq!(items[0].0, "b");
    assert_eq!(items[0].1.as_str(), Some("1"));
    assert_eq!(items[1].0, "a");
    assert_eq!(items[1].1.as_str(), Some("2"));
}

#[test]
fn value_accessors_tell_leaves_from_tables() {
    let leaf = Value::String("v".into());
    assert_eq!(leaf.as_str(), Some("v"));
    assert!(leaf.as_table().is_none());
    assert!(!leaf.is_table());

    let nested = Value::Table(Table::new());
    assert_eq!(nested.as_str(), None);
    assert!(nested.as_table().is_some());
    assert!(nested.is_table());
}

#[test]
fn child_table_returns_existing_table() {
    let mut table = Table::new();
    table
        .child_table("log")
        .expect("created")
        .insert("a", Value::String("1".into()));
    table
        .child_table("log")
        .expect("existing")
        .insert("b", Value::String("2".into()));
    let log = table.get("log").and_then(Value::as_table).expect("nested");
    assert_eq!(log.keys(), ["a", "b"]);
    assert_eq!(table.keys(), ["log"]);
}

#[test]
fn json_escapes_quotes_and_backslashes() {
    let mut table = Table::new();
    table.insert("say", Value::String("a \"quoted\" \\ word".into()));
    assert_eq!(table.to_json(), r#"{"say":"a \"quoted\" \\ word"}"#);
}

#[test]
fn pretty_json_indents_nested_tables() {
    let mut table = Table::new();
    table.insert("endpoint", Value::String("localhost:3000".into()));
    table
        .child_table("log")
        .expect("table")
        .insert("file", Value::String("/var/log/console.log".into()));
    table.child_table("empty").expect("table");
    assert_eq!(
        table.to_json_pretty(),
        "{\n  \"endpoint\": \"localhost:3000\",\n  \"log\": {\n    \"file\": \"/var/log/console.log\"\n  },\n  \"empty\": {}\n}"
    );
}

#[test]
fn json_escapes_control_characters() {
    let mut table = Table::new();
    table.insert("k", Value::String("a\nb\tc\r\u{8}\u{c}\u{1}\u{1f} ü".into()));
    assert_eq!(
        table.to_json(),
        "{\"k\":\"a\\nb\\tc\\r\\b\\f\\u0001\\u001f ü\"}"
    );
}

#[test]
fn keys_stay_distinct_through_inserts_and_child_tables() {
    let mut table = Table::new();
    table.insert("a", Value::String("1".to_string()));
    table.insert("b", Value::String("2".to_string()));
    table.insert("a", Value::String("3".to_string()));
    table.child_table("c").unwrap();
    table.child_table("c").unwrap().insert("x", Value::String("4".to_string()));
    table.child_table("c").unwrap().insert("x", Value::String("5".to_string()));
    assert_eq!(table.keys(), ["a", "b", "c"]);
    let iter_keys: Vec<&str> = table.iter().into_iter().map(|(k, _)| k).collect();
    assert_eq!(iter_keys, table.keys());
    let c = table.get("c").and_then(Value::as_table).unwrap();
    assert_eq!(c.keys(), ["x"]);
    assert_eq!(c.get("x").and_then(Value::as_str), Some("5"));
}
