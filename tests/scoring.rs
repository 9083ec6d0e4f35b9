use routes_monitor::network::{InterfaceScore, NetworkTester, TestResult};

fn sample(
    iface: &str,
    target: &str,
    reachable: bool,
    latency_us: Option<u64>,
    loss_ppm: Option<u32>,
    speed: Option<u64>,
) -> TestResult {
    TestResult {
        interface: iface.to_string(),
        target: target.to_string(),
        reachable,
        latency_us,
        packet_loss_ppm: loss_ppm,
        download_speed: speed,
        tested_at: 0,
    }
}

fn names(scores: &[InterfaceScore]) -> Vec<String> {
    scores.iter().map(|s| s.interface.clone()).collect()
}

#[test]
fn test_score_calculation() {
    let results = vec![
        sample("eth0", "8.8.8.8", true, Some(10_000), Some(0), Some(1024 * 1024)),
        sample("eth0", "1.1.1.1", true, Some(15_000), Some(0), Some(2048 * 1024)),
    ];

    let tester = NetworkTester::new(5, 4);
    let scores = tester.calculate_scores(&results);

    assert_eq!(scores.len(), 1);
    assert_eq!(scores[0].interface, "eth0");
    assert_eq!(scores[0].reachable_count, 2);
}

#[test]
fn healthy_and_dead_interfaces_score_100_and_0() {
    let mut results = Vec::new();
    for t in ["8.8.8.8", "1.1.1.1", "8.8.8.8", "1.1.1.1"] {
        results.push(sample("A", t, true, Some(10_000), Some(0), Some(2048 * 1024)));
        results.push(sample("B", t, false, None, Some(1_000_000), None));
    }
    let tester = NetworkTester::new(5, 4);
    let scores = tester.calculate_scores(&results);
    assert_eq!(names(&scores), vec!["A", "B"]);
    assert_eq!(scores[0].score, 100_000);
    assert_eq!(scores[0].reachable_count, 4);
    assert_eq!(scores[0].avg_latency_us, Some(10_000));
    assert_eq!(scores[0].avg_packet_loss_ppm, 0);
    assert_eq!(scores[0].avg_speed, 2048 * 1024);
    assert_eq!(scores[1].score, 0);
    assert_eq!(scores[1].reachable_count, 0);
    assert_eq!(scores[1].avg_latency_us, None);
    assert_eq!(scores[1].avg_packet_loss_ppm, 1_000_000);
    assert_eq!(scores[1].avg_speed, 0);
}

#[test]
fn composite_formula_on_mixed_samples() {
    // 1 of 2 reachable: 15 points; 40 ms: 25 points; 10% loss: 90 points;
    // 512 KB/s: 50 points. 15 + 50*0.4 + 90*0.2 + 25*0.1 = 55.5
    let results = vec![
        sample("wan", "a", true, Some(40_000), Some(100_000), Some(512 * 1024)),
        sample("wan", "b", false, None, Some(1_000_000), None),
    ];
    let scores = NetworkTester::new(5, 4).calculate_scores(&results);
    assert_eq!(scores.len(), 1);
    assert_eq!(scores[0].score, 55_500);
}

#[test]
fn missing_fields_fall_back_to_defaults() {
    // no latency: 100 ms (10 points); no loss: 0; no throughput: 0
    let results = vec![sample("wan", "a", true, None, None, None)];
    let scores = NetworkTester::new(5, 4).calculate_scores(&results);
    assert_eq!(scores[0].avg_latency_us, Some(100_000));
    assert_eq!(scores[0].avg_packet_loss_ppm, 0);
    assert_eq!(scores[0].avg_speed, 0);
    assert_eq!(scores[0].score, 30_000 + 20_000 + 1_000);
}

#[test]
fn unreachable_interface_never_ranks_first() {
    let mut results = vec![sample("dead", "a", false, None, Some(1_000_000), None)];
    for i in 0..40 {
        let reachable = i == 0;
        results.push(sample(
            "weak",
            "a",
            reachable,
            Some(9_000_000),
            Some(990_000),
            None,
        ));
    }
    let scores = NetworkTester::new(5, 4).calculate_scores(&results);
    assert_eq!(names(&scores), vec!["weak", "dead"]);
    assert!(scores[0].score > 0);
    assert_eq!(scores[1].score, 0);
}

#[test]
fn equal_scores_keep_first_seen_order() {
    let results = vec![
        sample("second", "a", true, Some(10_000), Some(0), None),
        sample("first", "a", true, Some(10_000), Some(0), None),
        sample("best", "a", true, Some(10_000), Some(0), Some(4_000_000)),
    ];
    let scores = NetworkTester::new(5, 4).calculate_scores(&results);
    assert_eq!(names(&scores), vec!["best", "second", "first"]);
}

#[test]
fn scoring_twice_gives_the_same_ranking() {
    let results = vec![
        sample("a", "x", true, Some(25_000), Some(50_000), Some(300_000)),
        sample("b", "x", true, Some(5_000), Some(0), Some(10)),
        sample("a", "y", false, None, Some(1_000_000), None),
        sample("c", "y", true, None, None, None),
    ];
    let tester = NetworkTester::new(5, 4);
    let first = tester.calculate_scores(&results);
    let second = tester.calculate_scores(&results);
    assert_eq!(names(&first), names(&second));
    let s1: Vec<u64> = first.iter().map(|s| s.score).collect();
    let s2: Vec<u64> = second.iter().map(|s| s.score).collect();
    assert_eq!(s1, s2);
}

#[test]
fn destination_does_not_weigh_on_the_score() {
    let a = vec![sample("wan", "8.8.8.8", true, Some(20_000), Some(0), None)];
    let b = vec![sample("wan", "1.1.1.1", true, Some(20_000), Some(0), None)];
    let tester = NetworkTester::new(5, 4);
    assert_eq!(
        tester.calculate_scores(&a)[0].score,
        tester.calculate_scores(&b)[0].score
    );
}

#[test]
fn no_samples_no_best_interface() {
    let tester = NetworkTester::new(5, 4);
    let scores = tester.calculate_scores(&[]);
    assert!(scores.is_empty());
    assert!(tester.get_best_interface(&scores).is_none());
}

#[test]
fn best_interface_is_the_first_score() {
    let results = vec![
        sample("slow", "a", true, Some(500_000), Some(0), None),
        sample("fast", "a", true, Some(1_000), Some(0), None),
    ];
    let tester = NetworkTester::new(5, 4);
    let scores = tester.calculate_scores(&results);
    assert_eq!(tester.get_best_interface(&scores).unwrap().interface, "fast");
    assert_eq!(tester.timeout(), 5);
    assert_eq!(tester.concurrency(), 4);
}

#[test]
fn destinations_are_probed_in_batches() {
    let tester = NetworkTester::new(5, 4);
    assert_eq!(tester.batch_bounds(10), vec![(0, 4), (4, 8), (8, 10)]);
    assert_eq!(tester.batch_bounds(8), vec![(0, 4), (4, 8)]);
    assert!(tester.batch_bounds(0).is_empty());
    assert_eq!(NetworkTester::new(5, 1).batch_bounds(2), vec![(0, 1), (1, 2)]);
}
