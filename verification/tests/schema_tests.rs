use sysctl_conf::{parse_str, Schema, ValidationError, ValueType};

const SCHEMA: &str = "\
# コメントは無視する
endpoint -> string
debug -> bool
log.file -> string
log.name -> string
retry -> integer
";

fn schema() -> Schema {
    Schema::parse_str(SCHEMA).expect("valid schema")
}

#[test]
fn schema_is_parsed_in_order() {
    let parsed = schema();
    assert_eq!(
        parsed.entries(),
        vec![
            ("endpoint".to_string(), ValueType::String),
            ("debug".to_string(), ValueType::Bool),
            ("log.file".to_string(), ValueType::String),
            ("log.name".to_string(), ValueType::String),
            ("retry".to_string(), ValueType::Integer),
        ]
    );
}

#[test]
fn missing_separator_is_an_error() {
    let err = Schema::parse_str("endpoint string\n").expect_err("line 1 is invalid");
    assert_eq!(
        err.to_string(),
        "line 1: missing `->` separator (`endpoint string`)"
    );
}

#[test]
fn unknown_type_is_an_error() {
    let err = Schema::parse_str("retry -> number\n").expect_err("number is unknown");
    assert_eq!(
        err.to_string(),
        "line 1: unknown type (expected string, bool or integer) (`retry -> number`)"
    );
}

#[test]
fn schema_empty_key_is_an_error() {
    let err = Schema::parse_str("-> string\n").expect_err("key is missing");
    assert_eq!(err.to_string(), "line 1: key is empty (`-> string`)");
}

#[test]
fn duplicated_key_is_an_error() {
    let err =
        Schema::parse_str("debug -> bool\ndebug -> string\n").expect_err("debug appears twice");
    assert_eq!(err.to_string(), "line 2: duplicate key (`debug -> string`)");
}

#[test]
fn config_following_the_schema_is_accepted() {
    let config = parse_str(
        "\
endpoint = localhost:3000
debug = true
log.file = /var/log/console.log
log.name = default.log
retry = 3
",
    )
    .expect("valid config");

    assert_eq!(schema().validate(&config), Ok(()));
}

#[test]
fn every_violation_is_reported() {
    let config = parse_str(
        "\
endpoint = 123
debug = dummy
log.file = 123
retry = dummy
",
    )
    .expect("valid syntax");

    let err = schema().validate(&config).expect_err("values are invalid");
    assert_eq!(
        err.0,
        vec![
            "key `endpoint`: expected string, but got integer (`123`)",
            "key `debug`: expected bool, but got string (`dummy`)",
            "key `log.file`: expected string, but got integer (`123`)",
            "key `log.name`: required by the schema but missing",
            "key `retry`: expected integer, but got string (`dummy`)",
        ]
    );
}

#[test]
fn keys_outside_the_schema_are_reported() {
    let config = parse_str("debug = true\nlog.level = info\n").expect("valid syntax");
    let err = Schema::parse_str("debug -> bool\n")
        .expect("valid schema")
        .validate(&config)
        .expect_err("log.level is not defined");

    assert_eq!(err.0, vec!["key `log.level`: not defined in the schema"]);
}

#[test]
fn nested_keys_where_a_value_is_expected_are_reported() {
    let config = parse_str("log.file = /var/log/console.log\n").expect("valid syntax");
    let err = Schema::parse_str("log -> string\n")
        .expect("valid schema")
        .validate(&config)
        .expect_err("log holds nested keys");

    assert_eq!(
        err.0,
        vec![
            "key `log`: expected string, but got nested keys",
            "key `log.file`: not defined in the schema",
        ]
    );
}

#[test]
fn validation_error_is_displayed_as_a_list() {
    let err = ValidationError(vec!["first".to_string(), "second".to_string()]);
    assert_eq!(
        err.to_string(),
        "schema validation failed:\n  - first\n  - second"
    );
}

#[test]
fn empty_segment_in_schema_key_is_an_error() {
    let err = Schema::parse_str("log..file -> string\n").expect_err("empty segment");
    assert_eq!(
        err.to_string(),
        "line 1: key contains an empty segment (`log..file -> string`)"
    );
}

#[test]
fn schema_lines_may_be_blank_or_comments_and_use_crlf() {
    let parsed = Schema::parse_str("\u{feff}; note\r\n\r\n  a.b   ->   integer  \r\n").expect("valid");
    assert_eq!(parsed.entries(), vec![("a.b".to_string(), ValueType::Integer)]);
}

#[test]
fn integer_type_follows_the_range_of_i64() {
    let schema = Schema::parse_str("n -> integer\n").expect("valid");
    for good in ["0", "-0", "+7", "9223372036854775807", "-9223372036854775808"] {
        let config = parse_str(&format!("n = {good}\n")).expect("valid");
        assert_eq!(schema.validate(&config), Ok(()), "{good} is an integer");
    }
    for bad in ["9223372036854775808", "-9223372036854775809", "+", "-", "1_000", "1.5", " 1x"] {
        let config = parse_str(&format!("n = {bad}\n")).expect("valid");
        let err = schema.validate(&config).expect_err("not an integer");
        assert_eq!(err.0.len(), 1, "{bad} is not an integer");
    }
}

#[test]
fn bool_type_accepts_exactly_true_and_false() {
    let schema = Schema::parse_str("b -> bool\n").expect("valid");
    let ok = parse_str("b = false\n").expect("valid");
    assert_eq!(schema.validate(&ok), Ok(()));
    let bad = parse_str("b = True\n").expect("valid");
    assert_eq!(
        schema.validate(&bad).expect_err("True is a string").0,
        vec!["key `b`: expected bool, but got string (`True`)"]
    );
    let number = parse_str("b = 1\n").expect("valid");
    assert_eq!(
        schema.validate(&number).expect_err("1 is an integer").0,
        vec!["key `b`: expected bool, but got integer (`1`)"]
    );
}

#[test]
fn value_type_names() {
    assert_eq!(ValueType::String.to_string(), "string");
    assert_eq!(ValueType::Bool.to_string(), "bool");
    assert_eq!(ValueType::Integer.to_string(), "integer");
}

#[test]
fn validation_error_text_lists_each_complaint() {
    let config = parse_str("x = 1\n").expect("valid");
    let err = Schema::parse_str("").expect("empty schema").validate(&config).expect_err("x undefined");
    assert_eq!(
        err.to_string(),
        "schema validation failed:\n  - key `x`: not defined in the schema"
    );
}

#[test]
fn type_names_read_back_and_are_case_sensitive() {
    for t in [ValueType::String, ValueType::Bool, ValueType::Integer] {
        let text = format!("k -> {}\n", t.to_string());
        let parsed = Schema::parse_str(&text).expect("a type's name is a type");
        assert_eq!(parsed.entries(), vec![("k".to_string(), t)]);
    }
    for name in ["String", "BOOL", "int", "number"] {
        let err = Schema::parse_str(&format!("k -> {name}\n")).expect_err("not a type name");
        assert_eq!(
            err.to_string(),
            format!("line 1: unknown type (expected string, bool or integer) (`k -> {name}`)")
        );
    }
}
