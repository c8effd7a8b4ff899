[package]
name = "fastloop_guard"
version = "0.1.0"
edition = "2021"
publish = false

[dependencies]
lru = "0.12"
blake2 = "0.10"
sha2 = "0.10"
serde = { version = "1", features = ["derive"] }
serde_json = "1"
parking_lot = "0.12"
tokio = { version = "1", features = ["full"] }
tracing = "0.1"
tracing-subscriber = { version = "0.3", features = ["env-filter"] }
