use pty_sidecar::latency::{LatencyTracker, PingTable, SAMPLE_CAPACITY};

#[test]
fn report_of_three_samples() {
    let mut t = LatencyTracker::new();
    t.record(10);
    t.record(20);
    t.record(60);
    let rep = t.report().expect("non-empty history must report");
    assert_eq!(rep.min_ms, 10);
    assert_eq!(rep.max_ms, 60);
    assert_eq!(rep.avg_ms, 30);
    assert_eq!(rep.high_latency_count, 1);
    assert_eq!(rep.sample_count, 3);
}

#[test]
fn threshold_is_exclusive() {
    let mut t = LatencyTracker::new();
    t.record(50);
    let rep = t.report().unwrap();
    assert_eq!(rep.high_latency_count, 0);
    t.record(51);
    let rep = t.report().unwrap();
    assert_eq!(rep.high_latency_count, 1);
}

#[test]
fn empty_tracker_reports_nothing() {
    let t = LatencyTracker::new();
    assert!(t.report().is_none());
}

#[test]
fn history_evicts_oldest_at_capacity() {
    let mut t = LatencyTracker::new();
    t.record(1);
    for _ in 0..SAMPLE_CAPACITY - 1 {
        t.record(7);
    }
    let rep = t.report().unwrap();
    assert_eq!(rep.sample_count, SAMPLE_CAPACITY);
    assert_eq!(rep.min_ms, 1);
    t.record(9);
    let rep = t.report().unwrap();
    assert_eq!(rep.sample_count, SAMPLE_CAPACITY);
    assert_eq!(rep.min_ms, 7, "the oldest sample must have been evicted");
    assert_eq!(rep.max_ms, 9);
}

#[test]
fn pong_pairs_with_the_recorded_ping() {
    let mut p = PingTable::new();
    p.record_ping(1, 1000);
    p.record_ping(2, 1500);
    assert_eq!(p.observe_pong(1, 1030), Some(30));
    assert_eq!(p.observe_pong(1, 1060), None, "a pong without a ping yields nothing");
    assert_eq!(p.observe_pong(2, 1510), Some(10));
}

#[test]
fn newer_ping_supersedes_older() {
    let mut p = PingTable::new();
    p.record_ping(7, 100);
    p.record_ping(7, 200);
    assert_eq!(p.observe_pong(7, 260), Some(60));
}

#[test]
fn forget_drops_the_outstanding_ping() {
    let mut p = PingTable::new();
    p.record_ping(7, 100);
    p.forget(7);
    assert_eq!(p.observe_pong(7, 200), None);
}

#[test]
fn clock_regression_yields_zero_sample() {
    let mut p = PingTable::new();
    p.record_ping(7, 500);
    assert_eq!(p.observe_pong(7, 400), Some(0));
}
