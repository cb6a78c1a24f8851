use cybersentinel::logger::finalize_alerts_json;
use cybersentinel::logger::ipv4_to_string;
use cybersentinel::logger::log_event;
use cybersentinel::logger::make_log_entry;
use cybersentinel::logger::parse_log_line;
use cybersentinel::logger::AlertReason;

#[test]
fn ipv4_rendering() {
    assert_eq!(ipv4_to_string(u32::from_be_bytes([10, 0, 0, 1])), "10.0.0.1");
    assert_eq!(ipv4_to_string(0), "0.0.0.0");
    assert_eq!(
        ipv4_to_string(u32::from_be_bytes([255, 255, 255, 255])),
        "255.255.255.255"
    );
    assert_eq!(
        ipv4_to_string(u32::from_be_bytes([192, 168, 1, 77])),
        "192.168.1.77"
    );
}

#[test]
fn reason_text() {
    assert_eq!(AlertReason::SuspiciousPort.text(), "Suspicious port access");
    assert_eq!(AlertReason::Flood.text(), "Port scan or flooding detected");
}

#[test]
fn log_event_exact_line() {
    let line = log_event(
        "2024-01-02T03:04:05+00:00",
        u32::from_be_bytes([10, 0, 0, 1]),
        u32::from_be_bytes([10, 0, 0, 2]),
        40000,
        23,
        6,
        AlertReason::SuspiciousPort,
    );
    assert_eq!(
        line,
        "{\"timestamp\":\"2024-01-02T03:04:05+00:00\",\"source_ip\":\"10.0.0.1\",\
         \"dest_ip\":\"10.0.0.2\",\"source_port\":40000,\"dest_port\":23,\
         \"protocol\":\"TCP\",\"alert\":\"Suspicious port access\"}"
    );
}

#[test]
fn parse_inverts_encode() {
    let entry = make_log_entry(
        "2024-06-30T12:00:00.123+00:00",
        u32::from_be_bytes([172, 16, 5, 9]),
        u32::from_be_bytes([8, 8, 8, 8]),
        0,
        31337,
        17,
        AlertReason::Flood,
    );
    let line = log_event(
        "2024-06-30T12:00:00.123+00:00",
        u32::from_be_bytes([172, 16, 5, 9]),
        u32::from_be_bytes([8, 8, 8, 8]),
        0,
        31337,
        17,
        AlertReason::Flood,
    );
    let parsed = parse_log_line(&line).expect("canonical line should parse");
    assert_eq!(parsed, entry);
    assert_eq!(parsed.protocol, "UDP");
    assert_eq!(parsed.source_port, 0);
    assert_eq!(parsed.dest_port, 31337);
}

#[test]
fn parse_rejects_non_records() {
    assert!(parse_log_line("").is_none());
    assert!(parse_log_line("[]").is_none());
    assert!(parse_log_line("{\"timestamp\":\"x\"}").is_none());
    assert!(parse_log_line("not json at all").is_none());
    // trailing garbage after the closing brace
    let line = log_event("t", 1, 2, 3, 4, 6, AlertReason::Flood) + "x";
    assert!(parse_log_line(&line).is_none());
    // non-canonical port number
    let bad = "{\"timestamp\":\"t\",\"source_ip\":\"0.0.0.1\",\"dest_ip\":\"0.0.0.2\",\
               \"source_port\":007,\"dest_port\":4,\"protocol\":\"TCP\",\
               \"alert\":\"Suspicious port access\"}";
    assert!(parse_log_line(bad).is_none());
    // port out of range
    let big = "{\"timestamp\":\"t\",\"source_ip\":\"0.0.0.1\",\"dest_ip\":\"0.0.0.2\",\
               \"source_port\":65536,\"dest_port\":4,\"protocol\":\"TCP\",\
               \"alert\":\"Suspicious port access\"}";
    assert!(parse_log_line(big).is_none());
}

#[test]
fn finalize_no_lines_gives_empty_array() {
    let out = finalize_alerts_json(&Vec::new());
    assert_eq!(out, "[]");
}

#[test]
fn finalize_blank_and_invalid_lines_give_empty_array() {
    let lines = vec![
        String::new(),
        "   ".to_string(),
        "not a record".to_string(),
    ];
    assert_eq!(finalize_alerts_json(&lines), "[]");
}

#[test]
fn finalize_one_record_pretty() {
    let line = log_event(
        "t",
        u32::from_be_bytes([10, 0, 0, 1]),
        u32::from_be_bytes([10, 0, 0, 2]),
        40000,
        23,
        6,
        AlertReason::SuspiciousPort,
    );
    let out = finalize_alerts_json(&vec![line]);
    assert_eq!(
        out,
        "[\n  {\n    \"timestamp\": \"t\",\n    \"source_ip\": \"10.0.0.1\",\n    \
         \"dest_ip\": \"10.0.0.2\",\n    \"source_port\": 40000,\n    \
         \"dest_port\": 23,\n    \"protocol\": \"TCP\",\n    \
         \"alert\": \"Suspicious port access\"\n  }\n]"
    );
}

#[test]
fn finalize_keeps_valid_records_in_order() {
    let mut lines = Vec::new();
    for i in 0..4u16 {
        lines.push(log_event(
            "2024-01-01T00:00:00+00:00",
            u32::from(i),
            2,
            1000 + i,
            23,
            6,
            AlertReason::SuspiciousPort,
        ));
    }
    lines.insert(2, "  \t ".to_string());
    lines.insert(1, "garbage line".to_string());
    let out = finalize_alerts_json(&lines);

    // the output is valid JSON holding exactly the four records, in order
    let value: serde_json::Value = serde_json::from_str(&out).expect("valid JSON");
    let arr = value.as_array().expect("an array");
    assert_eq!(arr.len(), 4);
    for (i, item) in arr.iter().enumerate() {
        assert_eq!(
            item.get("source_ip").and_then(|v| v.as_str()),
            Some(format!("0.0.0.{}", i).as_str())
        );
        assert_eq!(
            item.get("source_port").and_then(|v| v.as_u64()),
            Some(1000 + i as u64)
        );
        assert_eq!(item.get("protocol").and_then(|v| v.as_str()), Some("TCP"));
        assert_eq!(
            item.get("alert").and_then(|v| v.as_str()),
            Some("Suspicious port access")
        );
    }
}
