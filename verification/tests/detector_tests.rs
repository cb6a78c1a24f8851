use cybersentinel::Detector;
use cybersentinel::FlowTuple;

fn flow(source_ip: u32, dest_port: u16) -> FlowTuple {
    FlowTuple {
        source_ip,
        dest_ip: 0x0A000002,
        source_port: 40000,
        dest_port,
        protocol: 6,
        length: 60,
    }
}

#[test]
fn fifty_one_hits_in_window_flood_once() {
    let mut det = Detector::new();
    let f = flow(0x0A000001, 80);
    let mut floods = 0;
    for i in 0..51u64 {
        let outcome = det.analyze_packet(&f, i * 100);
        if outcome.flood {
            floods += 1;
            // only the 51st packet fires
            assert_eq!(i, 50);
        }
    }
    assert_eq!(floods, 1);
    // the alert reset the record
    let rec = det.lookup(0x0A000001).expect("record exists");
    assert_eq!(rec.count, 0);
    assert_eq!(rec.window_start, 5000);
}

#[test]
fn gap_after_fifty_hits_restarts_without_alert() {
    let mut det = Detector::new();
    let f = flow(0x0A000001, 80);
    for i in 0..50u64 {
        let outcome = det.analyze_packet(&f, i * 10);
        assert!(!outcome.flood);
    }
    // eleven seconds after the window opened: rollover wins over the
    // threshold, the would-be 51st hit raises nothing
    let outcome = det.analyze_packet(&f, 11_000);
    assert!(!outcome.flood);
    let rec = det.lookup(0x0A000001).expect("record exists");
    assert_eq!(rec.count, 1);
    assert_eq!(rec.window_start, 11_000);
}

#[test]
fn suspicious_ports_always_flagged() {
    let mut det = Detector::new();
    for &port in &[23u16, 445, 1433, 3389, 31337] {
        let outcome = det.analyze_packet(&flow(1, port), 0);
        assert!(outcome.suspicious_port);
    }
    for &port in &[22u16, 80, 443, 8080, 0] {
        let outcome = det.analyze_packet(&flow(2, port), 0);
        assert!(!outcome.suspicious_port);
    }
}

#[test]
fn both_rules_can_fire_on_one_packet() {
    let mut det = Detector::new();
    let f = flow(0x0A000001, 3389);
    for i in 0..50u64 {
        let outcome = det.analyze_packet(&f, i);
        assert!(outcome.suspicious_port);
        assert!(!outcome.flood);
    }
    let outcome = det.analyze_packet(&f, 50);
    assert!(outcome.suspicious_port);
    assert!(outcome.flood);
}

#[test]
fn sources_are_tracked_independently() {
    let mut det = Detector::new();
    for i in 0..60u64 {
        // alternate two sources: neither reaches the threshold
        let outcome = det.analyze_packet(&flow(1 + (i % 2) as u32, 80), i);
        assert!(!outcome.flood);
    }
    assert_eq!(det.lookup(1).unwrap().count, 30);
    assert_eq!(det.lookup(2).unwrap().count, 30);
    assert_eq!(det.lookup(3), None);
}

#[test]
fn window_edge_is_inclusive() {
    // the window is open while now - window_start <= 10000 ms: a 51st hit
    // exactly at the edge still floods
    let mut det = Detector::new();
    let f = flow(9, 80);
    for _ in 0..50u64 {
        assert!(!det.analyze_packet(&f, 0).flood);
    }
    let outcome = det.analyze_packet(&f, 10_000);
    assert!(outcome.flood);
    // one millisecond past the edge instead rolls the window over
    let mut det2 = Detector::new();
    for _ in 0..50u64 {
        det2.analyze_packet(&f, 0);
    }
    let outcome = det2.analyze_packet(&f, 10_001);
    assert!(!outcome.flood);
    assert_eq!(det2.lookup(9).unwrap().count, 1);
}
