[package]
name = "nexus_flow"
version = "0.1.0"
edition = "2021"
publish = false

[dependencies]
anyhow = "1"
dotenvy = "0.15"
futures-util = "0.3"
postgrest = "1"
serde = { version = "1", features = ["derive"] }
serde_json = "1"
tokio = { version = "1", features = ["full"] }
tokio-tungstenite = "*"
tracing = "0.1"
tracing-subscriber = { version = "0.3", features = ["env-filter", "fmt"] }
