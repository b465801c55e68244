[package]
name = "surreal_bridge"
version = "0.1.0"
edition = "2021"
publish = false

[dependencies]
tokio = { version = "=1.53.2", features = ["sync", "rt", "rt-multi-thread", "macros", "time"] }
serde = { version = "=1.0.229", features = ["derive"] }
serde_json = "=1.0.151"
serde_cbor = "=0.11.2"
ciborium = "=0.2.2"
chrono = { version = "=0.4.45", features = ["serde"] }
prost-types = "=0.14.4"
