[package]
name = "nova_agent"
version = "0.1.0"
edition = "2021"
publish = false

[dependencies]
anyhow = "1"
interprocess = { version = "2", features = ["tokio"] }
parking_lot = "0.12"
serde = { version = "1", features = ["derive"] }
serde_json = "1"
tokio = { version = "1", features = ["full"] }
tracing = "0.1"
tracing-appender = "0.2"
tracing-subscriber = { version = "0.3", features = ["env-filter"] }
uuid = { version = "1", features = ["v4"] }
