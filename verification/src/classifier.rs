//! Packet classifier: parse a raw Ethernet frame into a normalized IPv4 flow
//! descriptor, or reject it. Pure functions of the frame bytes; malformed,
//! undersized and non-IPv4 frames yield nothing.

use vstd::prelude::*;

verus! {

/// The EtherType that marks an IPv4 payload.
pub const ETHERTYPE_IPV4: u16 = 0x0800;

/// Normalized flow descriptor of one classified packet: the routing-relevant
/// five-tuple plus the frame's byte length. IPs are kept as single 32-bit
/// values in network (big-endian) order.
#[derive(Clone, Copy, PartialEq, Eq, Structural, Debug)]
pub struct FlowTuple {
    pub source_ip: u32,
    pub dest_ip: u32,
    pub source_port: u16,
    pub dest_port: u16,
    pub protocol: u8,
    pub length: usize,
}

/// A 16-bit big-endian value from two bytes.
pub open spec fn be16(hi: u8, lo: u8) -> u16 {
    (hi * 256 + lo) as u16
}

/// A 32-bit IPv4 address from its four octets, highest first.
pub open spec fn ipv4_key(a: u8, b: u8, c: u8, d: u8) -> u32 {
    (a * 0x1000000 + b * 0x10000 + c * 0x100 + d) as u32
}

/// The k-th octet of an address, counting 0 as the highest.
pub open spec fn ipv4_octet(ip: u32, k: int) -> u8 {
    if k == 0 {
        (ip / 0x1000000) as u8
    } else if k == 1 {
        ((ip / 0x10000) % 256) as u8
    } else if k == 2 {
        ((ip / 0x100) % 256) as u8
    } else {
        (ip % 256) as u8
    }
}

/// IPv4 header length in bytes: the low four bits of the version/IHL byte at
/// offset 14, in units of four bytes.
pub open spec fn frame_ihl(d: Seq<u8>) -> int
    recommends
        d.len() >= 15,
{
    (d[14] as int % 16) * 4
}

/// A frame the classifier accepts: long enough for the fixed Ethernet + IPv4
/// field layout, carrying the IPv4 EtherType at bytes 12..14, and long enough
/// that both transport ports lie inside it.
pub open spec fn frame_ok(d: Seq<u8>) -> bool {
    &&& d.len() >= 34
    &&& be16(d[12], d[13]) == ETHERTYPE_IPV4
    &&& d.len() >= 18 + frame_ihl(d)
}

/// The flow descriptor of an acceptable frame: protocol id at byte 23, source
/// and destination IPs at bytes 26..30 and 30..34, and the transport ports as
/// the two 16-bit values right after the IPv4 header.
pub open spec fn spec_flow(d: Seq<u8>) -> FlowTuple
    recommends
        frame_ok(d),
{
    FlowTuple {
        source_ip: ipv4_key(d[26], d[27], d[28], d[29]),
        dest_ip: ipv4_key(d[30], d[31], d[32], d[33]),
        source_port: be16(d[14 + frame_ihl(d)], d[15 + frame_ihl(d)]),
        dest_port: be16(d[16 + frame_ihl(d)], d[17 + frame_ihl(d)]),
        protocol: d[23],
        length: d.len() as usize,
    }
}

/// What classification returns on any frame: the flow descriptor exactly when
/// the frame is acceptable, nothing otherwise.
pub open spec fn spec_classify(d: Seq<u8>) -> Option<FlowTuple> {
    if frame_ok(d) {
        Some(spec_flow(d))
    } else {
        None
    }
}

/// Classify one raw frame. Yields the flow descriptor if and only if the
/// frame is at least 34 bytes, carries the IPv4 EtherType, and is long enough
/// to hold both transport ports past the IPv4 header; every field of the
/// result is the exact header field at its specified offset.
pub fn classify(data: &[u8]) -> (r: Option<FlowTuple>)
    ensures
        r == spec_classify(data@),
        r is Some <==> frame_ok(data@),
{
    if data.len() < 34 {
        return None;
    }
    let ethertype: u16 = (data[12] as u16) * 256 + (data[13] as u16);
    if ethertype != ETHERTYPE_IPV4 {
        return None;
    }
    let ihl: usize = (data[14] as usize % 16) * 4;
    if data.len() < 18 + ihl {
        return None;
    }
    let source_ip: u32 = (data[26] as u32) * 0x1000000 + (data[27] as u32) * 0x10000
        + (data[28] as u32) * 0x100 + (data[29] as u32);
    let dest_ip: u32 = (data[30] as u32) * 0x1000000 + (data[31] as u32) * 0x10000
        + (data[32] as u32) * 0x100 + (data[33] as u32);
    let source_port: u16 = (data[14 + ihl] as u16) * 256 + (data[15 + ihl] as u16);
    let dest_port: u16 = (data[16 + ihl] as u16) * 256 + (data[17 + ihl] as u16);
    Some(
        FlowTuple {
            source_ip,
            dest_ip,
            source_port,
            dest_port,
            protocol: data[23],
            length: data.len(),
        },
    )
}

/// The label a protocol id maps to: TCP and UDP by their ids, anything else
/// is lumped together.
pub open spec fn spec_protocol_label(p: u8) -> Seq<char> {
    if p == 6 {
        "TCP"@
    } else if p == 17 {
        "UDP"@
    } else {
        "Other"@
    }
}

/// The displayed protocol label of a protocol id.
pub fn protocol_label(p: u8) -> (r: &'static str)
    ensures
        r@ == spec_protocol_label(p),
{
    if p == 6 {
        "TCP"
    } else if p == 17 {
        "UDP"
    } else {
        "Other"
    }
}

} // verus!
