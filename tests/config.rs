use routes_monitor::config::{Config, ConfigError, GlobalConfig, NetworkInterface, TargetIP};

fn iface(name: &str, priority: u32, enabled: bool) -> NetworkInterface {
    NetworkInterface {
        name: name.to_string(),
        display_name: name.to_string(),
        priority,
        enabled,
        table_id: None,
        gateway: None,
    }
}

fn target(address: &str) -> TargetIP {
    TargetIP {
        address: address.to_string(),
        description: String::new(),
        test_url: None,
    }
}

#[test]
fn test_config_validation() {
    let config = Config {
        global: GlobalConfig::default(),
        interfaces: vec![NetworkInterface {
            name: "eth0".to_string(),
            display_name: "以太网".to_string(),
            priority: 1,
            enabled: true,
            table_id: Some(100),
            gateway: Some("192.168.1.1".to_string()),
        }],
        targets: vec![TargetIP {
            address: "8.8.8.8".to_string(),
            description: "Google DNS".to_string(),
            test_url: None,
        }],
    };

    assert!(config.validate().is_ok());
}

#[test]
fn default_global_settings() {
    let g = GlobalConfig::default();
    assert_eq!(g.check_interval, 60);
    assert_eq!(g.timeout, 5);
    assert_eq!(g.concurrent_tests, 4);
    assert_eq!(g.failure_threshold, 3);
    assert_eq!(g.log_level, "info");
    assert!(g.auto_switch);
}

fn valid() -> Config {
    Config {
        global: GlobalConfig::default(),
        interfaces: vec![iface("wan", 1, true), iface("lte", 2, true)],
        targets: vec![target("8.8.8.8")],
    }
}

#[test]
fn each_validation_error() {
    let mut c = valid();
    c.interfaces = vec![iface("wan", 1, false)];
    assert!(matches!(c.validate(), Err(ConfigError::NoEnabledInterface)));

    let mut c = valid();
    c.targets.clear();
    assert!(matches!(c.validate(), Err(ConfigError::NoTargets)));

    let mut c = valid();
    c.global.check_interval = 0;
    assert!(matches!(c.validate(), Err(ConfigError::ZeroCheckInterval)));

    let mut c = valid();
    c.global.timeout = 0;
    assert!(matches!(c.validate(), Err(ConfigError::ZeroTimeout)));

    let mut c = valid();
    c.global.concurrent_tests = 0;
    assert!(matches!(c.validate(), Err(ConfigError::ZeroConcurrency)));

    let mut c = valid();
    c.interfaces.push(iface("lte", 3, false));
    match c.validate() {
        Err(ConfigError::DuplicateInterface(n)) => assert_eq!(n, "lte"),
        _ => panic!("expected a duplicate name"),
    }
}

#[test]
fn enabled_interfaces_sorted_by_priority_stably() {
    let c = Config {
        global: GlobalConfig::default(),
        interfaces: vec![
            iface("c", 3, true),
            iface("off", 0, false),
            iface("a1", 1, true),
            iface("a2", 1, true),
        ],
        targets: vec![target("8.8.8.8")],
    };
    let enabled: Vec<&str> = c.enabled_interfaces().iter().map(|i| i.name.as_str()).collect();
    assert_eq!(enabled, vec!["c", "a1", "a2"]);
    let sorted: Vec<&str> = c.sorted_interfaces().iter().map(|i| i.name.as_str()).collect();
    assert_eq!(sorted, vec!["a1", "a2", "c"]);
}
