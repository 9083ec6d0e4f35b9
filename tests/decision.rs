use routes_monitor::decision::FailoverState;

#[test]
fn first_cycle_adopts_best() {
    let mut s = FailoverState::new();
    assert!(s.active_interface().is_none());
    assert!(s.cycle("A", 3, true));
    assert_eq!(s.active_interface(), Some("A"));
    assert_eq!(s.failure_count("A"), 0);
}

#[test]
fn first_cycle_adopts_best_even_with_large_threshold() {
    let mut s = FailoverState::new();
    assert!(s.cycle("wan", 1000, true));
    assert_eq!(s.active_interface(), Some("wan"));
}

#[test]
fn switch_only_on_third_cycle_with_threshold_three() {
    let mut s = FailoverState::new();
    assert!(s.cycle("A", 3, true));
    assert!(!s.cycle("B", 3, true));
    assert_eq!(s.failure_count("A"), 1);
    assert!(!s.cycle("B", 3, true));
    assert_eq!(s.failure_count("A"), 2);
    assert!(s.cycle("B", 3, true));
    assert_eq!(s.active_interface(), Some("B"));
    assert_eq!(s.failure_count("A"), 0);
    assert_eq!(s.failure_count("B"), 0);
}

#[test]
fn threshold_minus_one_cycles_do_not_switch() {
    let mut s = FailoverState::new();
    s.cycle("A", 5, true);
    for _ in 0..4 {
        assert!(!s.cycle("B", 5, true));
        assert_eq!(s.active_interface(), Some("A"));
    }
    assert!(s.cycle("B", 5, true));
    assert_eq!(s.active_interface(), Some("B"));
}

#[test]
fn streak_is_interrupted_when_active_is_best_again() {
    let mut s = FailoverState::new();
    s.cycle("A", 3, true);
    assert!(!s.cycle("B", 3, true));
    assert!(!s.cycle("B", 3, true));
    assert!(!s.cycle("A", 3, true));
    assert_eq!(s.failure_count("A"), 0);
    assert!(!s.cycle("B", 3, true));
    assert!(!s.cycle("B", 3, true));
    assert!(s.cycle("B", 3, true));
    assert_eq!(s.active_interface(), Some("B"));
}

#[test]
fn disabled_switching_keeps_counting() {
    let mut s = FailoverState::new();
    s.cycle("A", 2, true);
    assert!(!s.cycle("B", 2, false));
    assert!(s.cycle("B", 2, false));
    assert!(s.cycle("B", 2, false));
    assert_eq!(s.active_interface(), Some("A"));
    assert_eq!(s.failure_count("A"), 3);
}

#[test]
fn unconfirmed_switch_keeps_counters() {
    let mut s = FailoverState::new();
    s.cycle("A", 1, true);
    assert!(s.evaluate("B", 1));
    assert_eq!(s.active_interface(), Some("A"));
    s.record_switch("B", false);
    assert_eq!(s.active_interface(), Some("B"));
    assert_eq!(s.failure_count("A"), 1);
    s.record_switch("B", true);
    assert_eq!(s.failure_count("A"), 0);
}

#[test]
fn no_active_interface_and_disabled_switching_stays_inactive() {
    let mut s = FailoverState::new();
    assert!(s.cycle("A", 3, false));
    assert!(s.active_interface().is_none());
}
