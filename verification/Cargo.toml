[package]
name = "cybersentinel"
version = "0.1.0"
edition = "2021"
publish = false

[dependencies]
chrono = "*"
crossterm = "*"
pcap = "*"
ratatui = "*"

[dev-dependencies]
serde_json = "*"
