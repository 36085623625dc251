[package]
name = "ledger_hub"
version = "0.1.0"
edition = "2021"
publish = false

[dependencies]
anyhow = "1"
axum = "0.8"
chrono = "0.4"
lunchflow = "*"
serde = { version = "1", features = ["derive"] }
serde_json = "1"
simplefin = "*"
sqlx = { version = "0.8", features = ["runtime-tokio", "sqlite"] }
strsim = "0.11"
thiserror = "2"
tokio = { version = "1", features = ["full"] }
tower-http = { version = "0.6", features = ["trace"] }
tracing = "0.1"
tracing-subscriber = { version = "0.3", features = ["env-filter"] }
utoipa = "5"
