use sysctl_conf_parser::parse_sysctl_from_lines;
use sysctl_conf_parser::SysctlConf;
use sysctl_conf_parser::SysctlConfSchema;
use sysctl_conf_parser::SysctlConfSchemaError;

fn build(lines: &[&str]) -> SysctlConf {
    SysctlConf::new(lines.iter().map(|l| l.to_string()).collect())
}

fn schema(lines: &[&str]) -> SysctlConfSchema {
    SysctlConfSchema::new(lines.iter().map(|l| l.to_string()).collect()).unwrap()
}

#[test]
fn single_line_round_trip() {
    let conf = build(&["some.dotted.key=plain value"]);
    assert_eq!(
        conf.get("some.dotted.key"),
        Some(&"plain value".to_string())
    );
}

#[test]
fn rebuilding_gives_equal_tree() {
    let lines = &["a.b=1", "a.c=2", "d=3", "# note", "", "e.f.g=4"];
    let first = build(lines);
    let second = build(lines);
    assert_eq!(first, second);
}

#[test]
fn last_write_wins() {
    let conf = build(&["a.b=1", "a.b=2"]);
    assert_eq!(conf.get("a.b"), Some(&"2".to_string()));
}

#[test]
fn leaf_blocks_descent() {
    let conf = build(&["a=1", "a.b=2"]);
    assert_eq!(conf.get("a.b"), None);
    assert_eq!(conf.get("a"), Some(&"1".to_string()));
}

#[test]
fn leaf_overwrites_node() {
    let conf = build(&["a.b=1", "a=2"]);
    assert_eq!(conf.get("a"), Some(&"2".to_string()));
    assert_eq!(conf.get("a.b"), None);
}

#[test]
fn comment_and_blank_skipping() {
    let conf = build(&["", "  ", "# comment", "x=1"]);
    assert_eq!(conf.get("x"), Some(&"1".to_string()));
}

#[test]
fn whitespace_around_key_and_value_is_trimmed() {
    let conf = build(&["  x . y  =  1 0  "]);
    assert_eq!(conf.get("x . y"), Some(&"1 0".to_string()));
}

#[test]
fn bare_key_holds_empty_value() {
    let conf = build(&["solo.key"]);
    assert_eq!(conf.get("solo.key"), Some(&String::new()));
}

#[test]
fn empty_segments_pass_through() {
    let conf = build(&["a..b=1"]);
    assert_eq!(conf.get("a..b"), Some(&"1".to_string()));
    assert_eq!(conf.get("a.b"), None);
}

#[test]
fn value_may_contain_further_equals_signs() {
    let conf = build(&["k=a=b"]);
    assert_eq!(conf.get("k"), Some(&"a=b".to_string()));
}

#[test]
fn lookup_beyond_a_leaf_or_short_of_a_node_fails() {
    let conf = build(&["a.b=1"]);
    assert_eq!(conf.get("a"), None);
    assert_eq!(conf.get("a.b.c"), None);
}

#[test]
fn schema_case_insensitive_declarations_are_identical() {
    let upper = schema(&["k -> INTEGER"]);
    let lower = schema(&["k -> integer"]);
    assert_eq!(upper, lower);
}

#[test]
fn schema_rejects_mistyped_value() {
    let s = schema(&["port -> integer"]);
    assert!(s.validate_value_type("port", "abc").is_err());
    assert!(s.validate_value_type("port", "8080").is_ok());
}

#[test]
fn schema_unknown_key_always_accepted() {
    let s = schema(&["port -> integer"]);
    assert!(s.validate_value_type("undeclared.key", "anything").is_ok());
    assert!(s.validate_value_type("undeclared.key", "").is_ok());
}

#[test]
fn schema_validation_error_carries_the_key() {
    let s = schema(&["port -> integer"]);
    assert_eq!(
        s.validate_value_type("port", "abc"),
        Err(SysctlConfSchemaError::InvalidValueType("port".to_string()))
    );
}

#[test]
fn schema_unrecognized_type_token_fails_construction() {
    let result = SysctlConfSchema::new(vec!["k -> weird".to_string()]);
    assert_eq!(
        result,
        Err(SysctlConfSchemaError::InvalidValueType("weird".to_string()))
    );
}

#[test]
fn schema_lines_without_exactly_one_arrow_are_ignored() {
    let s = SysctlConfSchema::new(vec![
        "just a note".to_string(),
        "a->b->c".to_string(),
        "".to_string(),
        "port -> integer".to_string(),
    ])
    .unwrap();
    assert!(s.validate_value_type("port", "12").is_ok());
    assert!(s.validate_value_type("port", "x").is_err());
    assert!(s.validate_value_type("a", "x").is_ok());
}

#[test]
fn schema_later_declaration_overwrites_earlier() {
    let s = schema(&["k -> integer", "k -> string"]);
    assert!(s.validate_value_type("k", "not a number").is_ok());
}

#[test]
fn schema_bool_accepts_exactly_true_and_false() {
    let s = schema(&["flag -> bool"]);
    assert!(s.validate_value_type("flag", "true").is_ok());
    assert!(s.validate_value_type("flag", "false").is_ok());
    assert!(s.validate_value_type("flag", "True").is_err());
    assert!(s.validate_value_type("flag", "TRUE").is_err());
    assert!(s.validate_value_type("flag", "yes").is_err());
    assert!(s.validate_value_type("flag", "1").is_err());
    assert!(s.validate_value_type("flag", "").is_err());
}

#[test]
fn schema_integer_bounds_and_shapes() {
    let s = schema(&["n -> integer"]);
    assert!(s.validate_value_type("n", "0").is_ok());
    assert!(s.validate_value_type("n", "-1").is_ok());
    assert!(s.validate_value_type("n", "007").is_ok());
    assert!(s.validate_value_type("n", "9223372036854775807").is_ok());
    assert!(s.validate_value_type("n", "-9223372036854775808").is_ok());
    assert!(s.validate_value_type("n", "9223372036854775808").is_err());
    assert!(s.validate_value_type("n", "-9223372036854775809").is_err());
    assert!(s.validate_value_type("n", "1.5").is_err());
    assert!(s.validate_value_type("n", "1e3").is_err());
    assert!(s.validate_value_type("n", "-").is_err());
    assert!(s.validate_value_type("n", "").is_err());
    assert!(s.validate_value_type("n", " 1").is_err());
}

#[test]
fn schema_float_grammar() {
    let s = schema(&["x -> float"]);
    assert!(s.validate_value_type("x", "0.2").is_ok());
    assert!(s.validate_value_type("x", ".5").is_ok());
    assert!(s.validate_value_type("x", "5.").is_ok());
    assert!(s.validate_value_type("x", "-3").is_ok());
    assert!(s.validate_value_type("x", "+2.5e-10").is_ok());
    assert!(s.validate_value_type("x", "1E6").is_ok());
    assert!(s.validate_value_type("x", "inf").is_ok());
    assert!(s.validate_value_type("x", "-Infinity").is_ok());
    assert!(s.validate_value_type("x", "NaN").is_ok());
    assert!(s.validate_value_type("x", "abc").is_err());
    assert!(s.validate_value_type("x", "1e").is_err());
    assert!(s.validate_value_type("x", ".").is_err());
    assert!(s.validate_value_type("x", "1.2.3").is_err());
    assert!(s.validate_value_type("x", "--1").is_err());
    assert!(s.validate_value_type("x", "").is_err());
}

#[test]
fn end_to_end_scenario() {
    let conf = parse_sysctl_from_lines(
        vec![
            "endpoint = localhost:3000".to_string(),
            "debug=true".to_string(),
            "log.file=/var/log/console.log".to_string(),
            "vm.dirty_ratio=0.2".to_string(),
        ],
        vec![
            "endpoint -> string".to_string(),
            "debug -> bool".to_string(),
            "log.file -> string".to_string(),
            "vm.dirty_ratio -> float".to_string(),
        ],
    )
    .unwrap();
    assert_eq!(
        conf.get("log.file"),
        Some(&"/var/log/console.log".to_string())
    );
    assert_eq!(conf.get("vm.dirty_ratio"), Some(&"0.2".to_string()));
}

#[test]
fn end_to_end_failure_returns_no_tree() {
    let result = parse_sysctl_from_lines(
        vec!["debug=notabool".to_string()],
        vec![
            "endpoint -> string".to_string(),
            "debug -> bool".to_string(),
            "log.file -> string".to_string(),
            "vm.dirty_ratio -> float".to_string(),
        ],
    );
    assert_eq!(
        result,
        Err(SysctlConfSchemaError::InvalidValueType("debug".to_string()))
    );
}

#[test]
fn failing_parse_stops_at_first_invalid_line() {
    let result = parse_sysctl_from_lines(
        vec![
            "a=ok".to_string(),
            "n=notanumber".to_string(),
            "m=alsobad".to_string(),
        ],
        vec![
            "a -> string".to_string(),
            "n -> integer".to_string(),
            "m -> integer".to_string(),
        ],
    );
    assert_eq!(
        result,
        Err(SysctlConfSchemaError::InvalidValueType("n".to_string()))
    );
}

#[test]
fn bare_key_is_validated_with_empty_value() {
    let result = parse_sysctl_from_lines(
        vec!["flag".to_string()],
        vec!["flag -> bool".to_string()],
    );
    assert!(result.is_err());

    let conf = parse_sysctl_from_lines(
        vec!["name".to_string()],
        vec!["name -> string".to_string()],
    )
    .unwrap();
    assert_eq!(conf.get("name"), Some(&String::new()));
}
