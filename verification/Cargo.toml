[package]
name = "crater_report_merge"
version = "0.1.0"
edition = "2021"
publish = false

[dependencies]
semver = "*"
petgraph = "*"
serde = { version = "*", features = ["derive"] }
serde_derive = "*"
serde_json = "*"
