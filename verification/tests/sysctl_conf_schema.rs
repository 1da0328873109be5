use sysctl_conf_parser::SysctlConfSchema;
use sysctl_conf_parser::SysctlConfSchemaValueType;

#[test]
fn test_sysctl_conf_schema_new() {
    let lines = vec![
        "net.ipv4.ip_forward -> integer".to_string(),
        "net.ipv4.conf.all.rp_filter -> bool".to_string(),
        "kernel.hostname -> string".to_string(),
        "vm.swappiness -> float".to_string(),
        "endpoint -> string".to_string(),
    ];

    let schema = SysctlConfSchema::new(lines).unwrap();

    let expected_data = vec![
        (
            "net.ipv4.ip_forward".to_string(),
            SysctlConfSchemaValueType::Integer,
        ),
        (
            "net.ipv4.conf.all.rp_filter".to_string(),
            SysctlConfSchemaValueType::Bool,
        ),
        (
            "kernel.hostname".to_string(),
            SysctlConfSchemaValueType::String,
        ),
        ("vm.swappiness".to_string(), SysctlConfSchemaValueType::Float),
        ("endpoint".to_string(), SysctlConfSchemaValueType::String),
    ];

    assert_eq!(schema.0, expected_data);
}

#[test]
fn test_sysctl_conf_schema_validate_value_type() {
    let lines = vec![
        "net.ipv4.ip_forward -> integer".to_string(),
        "net.ipv4.conf.all.rp_filter -> bool".to_string(),
        "kernel.hostname -> string".to_string(),
        "vm.swappiness -> float".to_string(),
        "endpoint -> string".to_string(),
    ];

    let schema = SysctlConfSchema::new(lines).unwrap();

    assert!(schema
        .validate_value_type("net.ipv4.ip_forward", "123")
        .is_ok());
    assert!(schema
        .validate_value_type("net.ipv4.conf.all.rp_filter", "true")
        .is_ok());
    assert!(schema
        .validate_value_type("kernel.hostname", "localhost")
        .is_ok());
    assert!(schema.validate_value_type("vm.swappiness", "0.5").is_ok());
    assert!(schema
        .validate_value_type("endpoint", "localhost::3000")
        .is_ok());

    assert!(schema
        .validate_value_type("net.ipv4.ip_forward", "abc")
        .is_err());
    assert!(schema
        .validate_value_type("net.ipv4.conf.all.rp_filter", "yes")
        .is_err());
    assert!(schema.validate_value_type("vm.swappiness", "abc").is_err());
}

#[test]
fn test_sysctl_conf_schema_try_from_failure() {
    assert!(SysctlConfSchemaValueType::try_from("unknown").is_err());
    assert!(SysctlConfSchemaValueType::try_from("123").is_err());
    assert!(SysctlConfSchemaValueType::try_from("").is_err());
}

#[test]
fn test_sysctl_conf_schema_try_from_case_insensitive() {
    assert_eq!(
        SysctlConfSchemaValueType::try_from("STRING").unwrap(),
        SysctlConfSchemaValueType::String
    );
    assert_eq!(
        SysctlConfSchemaValueType::try_from("BOOL").unwrap(),
        SysctlConfSchemaValueType::Bool
    );
    assert_eq!(
        SysctlConfSchemaValueType::try_from("INTEGER").unwrap(),
        SysctlConfSchemaValueType::Integer
    );
    assert_eq!(
        SysctlConfSchemaValueType::try_from("FLOAT").unwrap(),
        SysctlConfSchemaValueType::Float
    );
}
