use sysctl_conf::{parse_str, Parser, SysctlConfig};

fn parse(input: &str) -> SysctlConfig {
    Parser::new().parse_str(input).expect("valid input")
}

#[test]
fn blank_lines_and_comments_are_ignored() {
    let config = parse("\n# debug = true\n  ; endpoint = ignored\n\nendpoint = localhost:3000\n");

    assert_eq!(config.get_str("endpoint"), Some("localhost:3000"));
}

#[test]
fn whitespace_around_token_and_value_is_ignored() {
    let config = parse("\tendpoint   =   localhost:3000\t\n");
    assert_eq!(config.get_str("endpoint"), Some("localhost:3000"));
}

#[test]
fn whitespace_inside_value_is_preserved() {
    let config = parse("kernel.hostname = my host name\n");
    assert_eq!(config.get_str("kernel.hostname"), Some("my host name"));
}

#[test]
fn value_may_contain_equals_and_hash() {
    let config = parse("query = a=b&c=d # not a comment\n");
    assert_eq!(config.get_str("query"), Some("a=b&c=d # not a comment"));
}

#[test]
fn value_may_be_empty() {
    let config = parse("debug =\n");
    assert_eq!(config.get_str("debug"), Some(""));
}

#[test]
fn duplicated_key_keeps_the_last_value() {
    let config = parse("debug = true\ndebug = false\n");
    assert_eq!(config.get_str("debug"), Some("false"));
}

#[test]
fn leading_dash_is_stripped_from_key() {
    let config = parse("-log.file = /var/log/console.log\n");
    assert_eq!(config.get_str("log.file"), Some("/var/log/console.log"));
}

#[test]
fn crlf_and_bom_are_handled() {
    let config = parse("\u{feff}endpoint = localhost:3000\r\ndebug = true\r\n");
    assert_eq!(config.get_str("endpoint"), Some("localhost:3000"));
    assert_eq!(config.get_str("debug"), Some("true"));
}

#[test]
fn missing_separator_is_an_error_with_line_number() {
    let err = Parser::new()
        .parse_str("endpoint = localhost:3000\ndebug true\n")
        .expect_err("line 2 is invalid");
    assert_eq!(
        err.to_string(),
        "line 2: missing `=` separator (`debug true`)"
    );
}

#[test]
fn parser_empty_key_is_an_error() {
    let err = Parser::new()
        .parse_str("= localhost\n")
        .expect_err("key is missing");
    assert_eq!(err.to_string(), "line 1: key is empty (`= localhost`)");
}

#[test]
fn readme_examples_load_as_documented() {
    let first = parse_str("endpoint = localhost:3000\ndebug = true\nlog.file = /var/log/console.log\n")
        .expect("example 1");
    assert_eq!(
        first.to_json(),
        r#"{"endpoint":"localhost:3000","debug":"true","log":{"file":"/var/log/console.log"}}"#
    );
    let second = parse_str(
        "endpoint = localhost:3000\n# debug = true\nlog.file = /var/log/console.log\nlog.name = default.log\n",
    )
    .expect("example 2");
    assert_eq!(
        second.to_json_pretty(),
        "{\n  \"endpoint\": \"localhost:3000\",\n  \"log\": {\n    \"file\": \"/var/log/console.log\",\n    \"name\": \"default.log\"\n  }\n}"
    );
}

#[test]
fn empty_input_gives_an_empty_configuration() {
    let config = parse("");
    assert!(config.flatten().is_empty());
    assert_eq!(config.to_json(), "{}");
}

#[test]
fn dash_alone_is_an_empty_key() {
    let err = parse_str("- = 1\n").expect_err("key is empty");
    assert_eq!(err.to_string(), "line 1: key is empty (`- = 1`)");
}

#[test]
fn insertion_errors_carry_line_number_and_content() {
    let err = parse_str("a = 1\na.b = 2\n").expect_err("a holds a value");
    assert_eq!(
        err.to_string(),
        "line 2: key `a` already holds a value and cannot have children (`a.b = 2`)"
    );
    let err = parse_str("a..b = 2\n").expect_err("empty segment");
    assert_eq!(
        err.to_string(),
        "line 1: key contains an empty segment (`a..b = 2`)"
    );
}

#[test]
fn line_numbers_beyond_nine_are_written_in_full() {
    let mut input = String::new();
    for i in 0..11 {
        input.push_str(&format!("k{i} = {i}\n"));
    }
    input.push_str("broken\n");
    let err = parse_str(&input).expect_err("line 12 is invalid");
    assert_eq!(err.to_string(), "line 12: missing `=` separator (`broken`)");
}

#[test]
fn only_leading_byte_order_marks_of_the_first_line_are_dropped() {
    let config = parse("\u{feff}\u{feff}a = 1\n");
    assert_eq!(config.get_str("a"), Some("1"));
    let later = parse_str("a = 1\n\u{feff}b = 2\n").expect("second line loads");
    assert_eq!(later.get_str("\u{feff}b"), Some("2"));
}

#[test]
fn lone_carriage_return_at_the_end_is_trimmed_as_whitespace() {
    let config = parse("a = 1\r");
    assert_eq!(config.get_str("a"), Some("1"));
}

#[test]
fn parse_error_new_formats_the_message() {
    let err = sysctl_conf::ParseError::new(7, "x y", "something wrong");
    assert_eq!(err.to_string(), "line 7: something wrong (`x y`)");
    assert_eq!(err.0, "line 7: something wrong (`x y`)");
}

#[test]
fn last_assignment_of_a_key_wins_over_lines_in_between() {
    let config = parse("a = 1\nb.c = 2\na = 3\nd = 4\n");
    assert_eq!(config.get_str("a"), Some("3"));
    assert_eq!(config.get_str("b.c"), Some("2"));
    assert_eq!(config.get_str("d"), Some("4"));
    assert_eq!(config.root().keys(), ["a", "b", "d"]);
}
