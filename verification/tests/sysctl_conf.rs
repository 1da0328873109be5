use sysctl_conf_parser::SysctlConf;
use sysctl_conf_parser::Value;

#[test]
fn test_sysctl_conf_new() {
    let lines = vec![
        "net.ipv4.ip_forward=1".to_string(),
        "net.ipv4.conf.all.rp_filter=1".to_string(),
        "kernel.hostname".to_string(),
        "vm.swappiness=".to_string(),
        "".to_string(),
        "endpoint = localhost::3000".to_string(),
        "# This is a comment".to_string(),
    ];

    let sysctl_conf = SysctlConf::new(lines);

    let expected_data = vec![
        (
            "net".to_string(),
            Value::Node(vec![(
                "ipv4".to_string(),
                Value::Node(vec![
                    ("ip_forward".to_string(), Value::Leaf("1".to_string())),
                    (
                        "conf".to_string(),
                        Value::Node(vec![(
                            "all".to_string(),
                            Value::Node(vec![(
                                "rp_filter".to_string(),
                                Value::Leaf("1".to_string()),
                            )]),
                        )]),
                    ),
                ]),
            )]),
        ),
        (
            "kernel".to_string(),
            Value::Node(vec![("hostname".to_string(), Value::Leaf(String::new()))]),
        ),
        (
            "vm".to_string(),
            Value::Node(vec![("swappiness".to_string(), Value::Leaf(String::new()))]),
        ),
        (
            "endpoint".to_string(),
            Value::Leaf("localhost::3000".to_string()),
        ),
    ];

    assert_eq!(sysctl_conf.0, expected_data);
}

#[test]
fn test_sysctl_conf_get() {
    let lines = vec![
        "net.ipv4.ip_forward=1".to_string(),
        "net.ipv4.conf.all.rp_filter=1".to_string(),
        "kernel.hostname".to_string(),
        "vm.swappiness=".to_string(),
        "endpoint = localhost::3000".to_string(),
    ];

    let sysctl_conf = SysctlConf::new(lines);

    assert_eq!(
        sysctl_conf.get("net.ipv4.ip_forward"),
        Some(&"1".to_string())
    );
    assert_eq!(
        sysctl_conf.get("net.ipv4.conf.all.rp_filter"),
        Some(&"1".to_string())
    );
    assert_eq!(sysctl_conf.get("kernel.hostname"), Some(&String::new()));
    assert_eq!(sysctl_conf.get("vm.swappiness"), Some(&String::new()));
    assert_eq!(
        sysctl_conf.get("endpoint"),
        Some(&"localhost::3000".to_string())
    );
    assert_eq!(sysctl_conf.get("non.existent.key"), None);
}
