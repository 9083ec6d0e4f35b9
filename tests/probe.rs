use routes_monitor::network::TestResult;
use routes_monitor::probe::{
    already_exists, failed_probe, parse_fixed, parse_ping_output, parse_speed_output, ping_target, probe_outcome,
};

const LINUX_PING: &str = "PING 8.8.8.8 (8.8.8.8) from 10.0.0.2 wan: 56(84) bytes of data.
64 bytes from 8.8.8.8: icmp_seq=1 ttl=117 time=10.1 ms

--- 8.8.8.8 ping statistics ---
4 packets transmitted, 3 received, 25% packet loss, time 3005ms
rtt min/avg/max/mdev = 10.123/15.456/20.789/3.210 ms
";

const BUSYBOX_PING: &str = "--- 1.1.1.1 ping statistics ---
4 packets transmitted, 4 packets received, 0% packet loss
round-trip min/avg/max = 1.0/2.5/3.0 ms
";

#[test]
fn linux_ping_report_is_read() {
    assert_eq!(parse_ping_output(LINUX_PING), (Some(250_000), Some(15_456)));
}

#[test]
fn busybox_ping_report_is_read() {
    assert_eq!(parse_ping_output(BUSYBOX_PING), (Some(0), Some(2_500)));
}

#[test]
fn unrecognized_report_gives_nothing() {
    assert_eq!(parse_ping_output("connect: Network is unreachable\n"), (None, None));
    assert_eq!(parse_ping_output(""), (None, None));
}

#[test]
fn outcome_requires_success_and_partial_delivery() {
    let o = probe_outcome(true, LINUX_PING);
    assert!(o.reachable);
    assert_eq!(o.latency_us, Some(15_456));
    assert_eq!(o.packet_loss_ppm, Some(250_000));

    let lost = "4 packets transmitted, 0 received, 100% packet loss, time 3005ms\n";
    let o = probe_outcome(false, lost);
    assert!(!o.reachable);
    assert_eq!(o.packet_loss_ppm, Some(1_000_000));
    assert!(!probe_outcome(true, lost).reachable);
    assert!(!probe_outcome(true, "garbage").reachable);
    assert!(!probe_outcome(false, BUSYBOX_PING).reachable);
}

#[test]
fn failed_probe_is_unreachable_with_full_loss() {
    let o = failed_probe();
    assert!(!o.reachable);
    assert_eq!(o.latency_us, None);
    assert_eq!(o.packet_loss_ppm, Some(1_000_000));
}

#[test]
fn speed_output_is_bytes_per_second() {
    assert_eq!(parse_speed_output("123456.789\n"), Some(123456));
    assert_eq!(parse_speed_output("0.000"), Some(0));
    assert_eq!(parse_speed_output("fast"), None);
    assert_eq!(parse_speed_output(""), None);
}

#[test]
fn fixed_point_decimals() {
    assert_eq!(parse_fixed("12.5", 3, u64::MAX), Some(12_500));
    assert_eq!(parse_fixed(".5", 2, u64::MAX), Some(50));
    assert_eq!(parse_fixed("7.", 1, u64::MAX), Some(70));
    assert_eq!(parse_fixed("1.23456", 2, u64::MAX), Some(123));
    assert_eq!(parse_fixed("1.2.3", 2, u64::MAX), None);
    assert_eq!(parse_fixed(".", 2, u64::MAX), None);
    assert_eq!(parse_fixed("300", 0, 255), None);
    assert_eq!(parse_fixed("-1", 0, 255), None);
}

#[test]
fn probe_address_drops_prefix_length() {
    assert_eq!(ping_target("8.8.8.8/32"), "8.8.8.8");
    assert_eq!(ping_target("example.org"), "example.org");
}

#[test]
fn sample_keeps_throughput_only_when_reachable() {
    let up = TestResult::from_probe("wan", "8.8.8.8", probe_outcome(true, BUSYBOX_PING), Some(99), 1_700_000_000_000);
    assert_eq!(up.interface, "wan");
    assert_eq!(up.target, "8.8.8.8");
    assert!(up.reachable);
    assert_eq!(up.download_speed, Some(99));
    assert_eq!(up.tested_at, 1_700_000_000_000);
    let down = TestResult::from_probe("wan", "8.8.8.8", failed_probe(), Some(99), 5);
    assert_eq!(down.download_speed, None);
    assert_eq!(down.tested_at, 5);
}

#[test]
fn existing_entry_errors_count_as_success() {
    assert!(already_exists("RTNETLINK answers: File exists\n"));
    assert!(!already_exists("RTNETLINK answers: Network is unreachable\n"));
    assert!(!already_exists(""));
}
