use cybersentinel::classify;
use cybersentinel::protocol_label;
use cybersentinel::FlowTuple;

/// An Ethernet/IPv4 frame with the given header fields at the specified
/// offsets, padded with zeros to `total_len` bytes.
fn build_frame(
    ethertype: u16,
    ihl_words: u8,
    protocol: u8,
    src: [u8; 4],
    dst: [u8; 4],
    src_port: u16,
    dst_port: u16,
    total_len: usize,
) -> Vec<u8> {
    let mut d = vec![0u8; total_len];
    if total_len > 13 {
        d[12] = (ethertype >> 8) as u8;
        d[13] = (ethertype & 0xFF) as u8;
    }
    if total_len > 14 {
        d[14] = 0x40 | (ihl_words & 0x0F);
    }
    if total_len > 23 {
        d[23] = protocol;
    }
    if total_len > 33 {
        d[26..30].copy_from_slice(&src);
        d[30..34].copy_from_slice(&dst);
    }
    let off = 14 + (ihl_words as usize) * 4;
    if total_len >= off + 4 {
        d[off] = (src_port >> 8) as u8;
        d[off + 1] = (src_port & 0xFF) as u8;
        d[off + 2] = (dst_port >> 8) as u8;
        d[off + 3] = (dst_port & 0xFF) as u8;
    }
    d
}

#[test]
fn short_frames_yield_nothing() {
    for len in 0..34 {
        let d = vec![0u8; len];
        assert_eq!(classify(&d), None);
    }
    let d = build_frame(0x0800, 5, 6, [10, 0, 0, 1], [10, 0, 0, 2], 1, 2, 33);
    assert_eq!(classify(&d), None);
}

#[test]
fn non_ipv4_frames_yield_nothing() {
    // IPv6 EtherType
    let d = build_frame(0x86DD, 5, 6, [10, 0, 0, 1], [10, 0, 0, 2], 1, 2, 60);
    assert_eq!(classify(&d), None);
    // ARP EtherType
    let d = build_frame(0x0806, 5, 6, [10, 0, 0, 1], [10, 0, 0, 2], 1, 2, 60);
    assert_eq!(classify(&d), None);
}

#[test]
fn valid_frame_fields_round_trip() {
    let d = build_frame(
        0x0800,
        5,
        6,
        [192, 168, 1, 77],
        [10, 20, 30, 40],
        54321,
        443,
        60,
    );
    let ft = classify(&d).expect("frame should classify");
    assert_eq!(
        ft,
        FlowTuple {
            source_ip: u32::from_be_bytes([192, 168, 1, 77]),
            dest_ip: u32::from_be_bytes([10, 20, 30, 40]),
            source_port: 54321,
            dest_port: 443,
            protocol: 6,
            length: 60,
        }
    );
}

#[test]
fn frame_too_short_for_ports_yields_nothing() {
    // 34 bytes is enough for the fixed fields but, with a 20-byte IPv4
    // header, not for the two transport ports at offsets 34..38.
    let d = build_frame(0x0800, 5, 6, [10, 0, 0, 1], [10, 0, 0, 2], 1, 2, 34);
    assert_eq!(classify(&d), None);
    // 38 bytes is exactly enough.
    let d = build_frame(0x0800, 5, 17, [10, 0, 0, 1], [10, 0, 0, 2], 7, 9, 38);
    let ft = classify(&d).expect("frame should classify");
    assert_eq!(ft.source_port, 7);
    assert_eq!(ft.dest_port, 9);
    assert_eq!(ft.protocol, 17);
}

#[test]
fn larger_ip_header_shifts_ports() {
    // 8 words of IPv4 header: ports at offsets 46..50.
    let d = build_frame(0x0800, 8, 6, [1, 2, 3, 4], [5, 6, 7, 8], 1000, 2000, 50);
    let ft = classify(&d).expect("frame should classify");
    assert_eq!(ft.source_port, 1000);
    assert_eq!(ft.dest_port, 2000);
    let short = build_frame(0x0800, 8, 6, [1, 2, 3, 4], [5, 6, 7, 8], 1000, 2000, 49);
    assert_eq!(classify(&short), None);
}

#[test]
fn protocol_labels() {
    assert_eq!(protocol_label(6), "TCP");
    assert_eq!(protocol_label(17), "UDP");
    assert_eq!(protocol_label(1), "Other");
    assert_eq!(protocol_label(0), "Other");
}
