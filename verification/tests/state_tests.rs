use cybersentinel::create_shared_state;
use cybersentinel::Stats;

#[test]
fn fresh_stats_are_zero() {
    let s = Stats::new();
    assert_eq!(s.total_packets, 0);
    assert_eq!(s.tcp_packets, 0);
    assert_eq!(s.udp_packets, 0);
    assert!(s.alerts.is_empty());
    let d = Stats::default();
    assert_eq!(d.total_packets, 0);
}

#[test]
fn counters_track_classified_packets() {
    let mut s = Stats::new();
    let protocols = [6u8, 6, 17, 1, 6, 17, 255, 0, 6, 17];
    for &p in &protocols {
        s.record(p);
    }
    assert_eq!(s.total_packets, 10);
    assert_eq!(s.tcp_packets, 4);
    assert_eq!(s.udp_packets, 3);
    assert!(s.tcp_packets + s.udp_packets <= s.total_packets);
}

#[test]
fn only_other_protocols_break_equality() {
    let mut s = Stats::new();
    for &p in &[6u8, 17, 6, 17] {
        s.record(p);
    }
    // no "Other" packets: equality holds
    assert_eq!(s.tcp_packets + s.udp_packets, s.total_packets);
    s.record(1);
    assert!(s.tcp_packets + s.udp_packets < s.total_packets);
}

#[test]
fn alerts_append_in_order() {
    let mut s = Stats::new();
    s.record_alert("first".to_string());
    s.record_alert("second".to_string());
    assert_eq!(s.alerts, vec!["first".to_string(), "second".to_string()]);
    assert_eq!(s.total_packets, 0);
}

#[test]
fn snapshot_is_a_consistent_copy() {
    let mut s = Stats::new();
    s.record(6);
    s.record(17);
    s.record(2);
    s.record_alert("a".to_string());
    let (total, tcp, udp, alerts) = s.snapshot();
    assert_eq!(total, 3);
    assert_eq!(tcp, 1);
    assert_eq!(udp, 1);
    assert_eq!(alerts, vec!["a".to_string()]);
    // the copy is independent of the store
    s.record(6);
    assert_eq!(total, 3);
}

#[test]
fn shared_state_starts_fresh() {
    let shared = create_shared_state();
    let guard = shared.lock().unwrap();
    assert_eq!(guard.total_packets, 0);
    assert_eq!(guard.tcp_packets, 0);
    assert_eq!(guard.udp_packets, 0);
    assert!(guard.alerts.is_empty());
}
