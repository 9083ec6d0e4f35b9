use routes_monitor::openwrt::{
    parse_uci_routes, plan_static_routes, route_section_name, verify_routes, OpenWrtManager,
    RouteAction, RouteEntry,
};

fn entry(section: &str, target: &str, interface: &str) -> RouteEntry {
    RouteEntry {
        section: section.to_string(),
        target: target.to_string(),
        interface: interface.to_string(),
    }
}

fn apply(routes: &mut Vec<RouteEntry>, actions: &[RouteAction]) {
    for a in actions {
        match a {
            RouteAction::SetInterface { section, interface } => {
                for r in routes.iter_mut() {
                    if &r.section == section {
                        r.interface = interface.clone();
                    }
                }
            }
            RouteAction::Create {
                section,
                target,
                interface,
            } => {
                if let Some(r) = routes.iter_mut().find(|r| &r.section == section) {
                    r.target = target.clone();
                    r.interface = interface.clone();
                } else {
                    routes.push(entry(section, target, interface));
                }
            }
        }
    }
}

#[test]
fn test_openwrt_manager_creation() {
    let manager = OpenWrtManager::new();
    assert!(manager.current_interface().is_none());
}

#[test]
fn manager_tracks_the_switched_interface() {
    let mut manager = OpenWrtManager::new();
    assert!(manager.needs_switch("wan"));
    manager.mark_switched("wan");
    assert_eq!(manager.current_interface(), Some("wan"));
    assert!(!manager.needs_switch("wan"));
    assert!(manager.needs_switch("lte"));
    assert_eq!(manager.rule_marker(), "routes-monitor");
}

#[test]
fn physical_name_strips_ppp_prefix() {
    assert_eq!(
        OpenWrtManager::convert_to_physical_interface("pppoe-wan_cm"),
        "wan_cm"
    );
    assert_eq!(
        OpenWrtManager::convert_to_physical_interface("pppoe-pppoe-wan"),
        "wan"
    );
    assert_eq!(OpenWrtManager::convert_to_physical_interface("eth0"), "eth0");
}

#[test]
fn uci_value_is_unquoted() {
    assert_eq!(
        OpenWrtManager::extract_uci_value("network.route_wan.interface='wan_cm'"),
        Some("wan_cm".to_string())
    );
    assert_eq!(
        OpenWrtManager::extract_uci_value("network.r.target=\"10.0.0.1\" "),
        Some("10.0.0.1".to_string())
    );
    assert_eq!(OpenWrtManager::extract_uci_value("no value here"), None);
}

#[test]
fn rule_priority_is_read() {
    let m = OpenWrtManager::new();
    assert_eq!(m.extract_priority("100: from all lookup 100"), Some(100));
    assert_eq!(m.extract_priority(" 32766:\tfrom all lookup main"), Some(32766));
    assert_eq!(m.extract_priority("+7: x"), Some(7));
    assert_eq!(m.extract_priority("abc: from all"), None);
    assert_eq!(m.extract_priority("99999999999: x"), None);
    assert_eq!(m.extract_priority(""), None);
}

#[test]
fn owned_rule_priorities_are_in_band() {
    let m = OpenWrtManager::new();
    let rules = vec![
        "0:\tfrom all lookup local".to_string(),
        "100:\tfrom all oif wan lookup 100".to_string(),
        "999:\tfrom all lookup 7".to_string(),
        "1000:\tfrom all lookup 8".to_string(),
        "garbage".to_string(),
    ];
    assert_eq!(m.owned_rule_priorities(&rules), vec![100, 999]);
}

#[test]
fn dump_is_parsed_into_routes() {
    let dump = "network.loopback=interface\n\
network.route_8_8_8_8=route\n\
network.route_8_8_8_8.interface='wan'\n\
network.route_8_8_8_8.target='8.8.8.8'\n\
network.@route[0]=route\n\
network.@route[0].target='1.1.1.1/32'\n\
network.@route[0].interface='lte'\n\
network.partial=route\n\
network.partial.target='9.9.9.9'\n";
    let routes = parse_uci_routes(dump);
    assert_eq!(routes.len(), 2);
    assert_eq!(routes[0].section, "route_8_8_8_8");
    assert_eq!(routes[0].target, "8.8.8.8");
    assert_eq!(routes[0].interface, "wan");
    assert_eq!(routes[1].section, "@route[0]");
    assert_eq!(routes[1].target, "1.1.1.1/32");
    assert_eq!(routes[1].interface, "lte");
}

#[test]
fn empty_dump_has_no_routes() {
    assert!(parse_uci_routes("").is_empty());
}

#[test]
fn section_name_is_sanitized() {
    assert_eq!(route_section_name("10.0.0.1/32"), "route_10_0_0_1_32");
    assert_eq!(route_section_name("fe80::1"), "route_fe80__1");
}

#[test]
fn plan_rebinds_creates_and_skips() {
    let existing = vec![
        entry("route_8_8_8_8", "8.8.8.8/32", "lte"),
        entry("route_1_1_1_1", "1.1.1.1", "wan"),
    ];
    let targets = vec![
        "8.8.8.8".to_string(),
        "1.1.1.1/32".to_string(),
        "9.9.9.9".to_string(),
    ];
    let plan = plan_static_routes(&existing, &targets, "pppoe-wan");
    assert_eq!(plan.len(), 2);
    match &plan[0] {
        RouteAction::SetInterface { section, interface } => {
            assert_eq!(section, "route_8_8_8_8");
            assert_eq!(interface, "wan");
        }
        _ => panic!("expected a rebinding"),
    }
    match &plan[1] {
        RouteAction::Create {
            section,
            target,
            interface,
        } => {
            assert_eq!(section, "route_9_9_9_9");
            assert_eq!(target, "9.9.9.9");
            assert_eq!(interface, "wan");
        }
        _ => panic!("expected a creation"),
    }
}

#[test]
fn reconcile_twice_changes_nothing_more() {
    let mut routes = vec![
        entry("route_8_8_8_8", "8.8.8.8", "lte"),
        entry("other", "10.0.0.0/8", "lan"),
    ];
    let targets = vec!["8.8.8.8".to_string(), "1.1.1.1".to_string()];
    let first = plan_static_routes(&routes, &targets, "wan");
    assert_eq!(first.len(), 2);
    apply(&mut routes, &first);
    let second = plan_static_routes(&routes, &targets, "wan");
    assert!(second.is_empty());
    assert_eq!(routes.len(), 3);
}

#[test]
fn verify_is_true_without_managed_routes() {
    assert!(verify_routes(&[], "wan"));
    let foreign = vec![entry("other", "10.0.0.0/8", "lan")];
    assert!(verify_routes(&foreign, "wan"));
}

#[test]
fn verify_checks_every_managed_route() {
    let ok = vec![
        entry("route_8_8_8_8", "8.8.8.8", "wan"),
        entry("other", "10.0.0.0/8", "lan"),
    ];
    assert!(verify_routes(&ok, "pppoe-wan"));
    let bad = vec![
        entry("route_8_8_8_8", "8.8.8.8", "wan"),
        entry("route_1_1_1_1", "1.1.1.1", "lte"),
    ];
    assert!(!verify_routes(&bad, "wan"));
}
