use sysctl_conf_parser::parse_sysctl_from_lines;

fn sample_config_lines() -> Vec<String> {
    vec![
        "endpoint = localhost:3000".to_string(),
        "debug=true".to_string(),
        "log.file=/var/log/console.log".to_string(),
        "log.name=default.log".to_string(),
        "vm.dirty_ratio=0.2".to_string(),
    ]
}

fn sample_schema_lines() -> Vec<String> {
    vec![
        "endpoint -> string".to_string(),
        "debug -> bool".to_string(),
        "log.file -> string".to_string(),
        "vm.dirty_ratio -> float".to_string(),
    ]
}

#[test]
fn test_parse_sysctl_from_path() {
    let sysctl_conf = parse_sysctl_from_lines(sample_config_lines(), sample_schema_lines())
        .expect("the sample configuration should satisfy the sample schema");

    assert_eq!(
        sysctl_conf.get("endpoint"),
        Some(&"localhost:3000".to_string())
    );
    assert_eq!(sysctl_conf.get("debug"), Some(&"true".to_string()));
    assert_eq!(
        sysctl_conf.get("log.file"),
        Some(&"/var/log/console.log".to_string())
    );
    assert_eq!(
        sysctl_conf.get("log.name"),
        Some(&"default.log".to_string())
    );
    assert_eq!(sysctl_conf.get("vm.dirty_ratio"), Some(&"0.2".to_string()));
}

#[test]
fn test_parse_sysctl_from_path_type_mismatch() {
    let mut config_lines = sample_config_lines();
    config_lines[1] = "debug=notabool".to_string();

    let result = parse_sysctl_from_lines(config_lines, sample_schema_lines());

    assert!(result.is_err());
}
