[package]
name = "ledger_core"
version = "0.1.0"
edition = "2021"
publish = false

[dependencies]
uuid = { version = "=1.27.0", features = ["v4", "serde"] }
chrono = "=0.4.45"
serde = { version = "1", features = ["derive"] }
serde_json = "1"
axum = "=0.6.20"
tokio = { version = "1", features = ["macros", "rt-multi-thread"] }
dotenvy = "0.15"
tracing-subscriber = "0.3"
