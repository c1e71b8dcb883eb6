[package]
name = "session_replay"
version = "0.1.0"
edition = "2021"
publish = false

[dependencies]
agent-client-protocol = "0.10"
chrono = { version = "=0.4.45", features = ["serde"] }
serde = { version = "=1.0.229", features = ["derive"] }
serde_json = { version = "=1.0.154", features = ["raw_value"] }
tokio = { version = "=1.54.1", features = ["sync", "rt"] }
tracing = "=0.1.44"
