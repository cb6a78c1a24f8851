//! A lightweight host-local traffic monitor library: classify raw Ethernet
//! frames into IPv4 flow descriptors, detect suspicious destination ports and
//! per-source-IP flooding bursts inside a rolling time window, keep aggregate
//! traffic counters, and encode/decode the newline-delimited JSON alert log.
//!
//! Live capture, the alert file, and the terminal dashboard are left to the
//! surrounding application; everything here is pure logic over plain values.

pub mod classifier;
pub mod detector;
pub mod logger;
pub mod state;

pub use classifier::FlowTuple;
pub use classifier::classify;
pub use classifier::protocol_label;
pub use detector::AnalysisOutcome;
pub use detector::Detector;
pub use detector::IpHit;
pub use logger::AlertReason;
pub use logger::LogEntry;
pub use logger::finalize_alerts_json;
pub use logger::ipv4_to_string;
pub use logger::log_event;
pub use logger::parse_log_line;
pub use state::Stats;
pub use state::create_shared_state;
