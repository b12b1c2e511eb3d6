[package]
name = "matchbox_server"
version = "0.1.0"
edition = "2021"
publish = false

[dependencies]
anyhow = "1"
argon2 = "0.5"
async-trait = "0.1"
axum = "0.7"
base64 = "0.22"
chrono = "0.4"
clap = { version = "4", features = ["derive"] }
dotenvy = "0.15"
ed25519-dalek = "2"
futures = "0.3"
jsonwebtoken = "9"
matchbox_protocol = "0.10"
matchbox_signaling = "0.10"
rand = "0.8"
serde = { version = "1", features = ["derive"] }
serde_json = "1"
sha2 = "0.10"
thiserror = "1"
tokio = { version = "1", features = ["full"] }
tower-http = { version = "0.5", features = ["cors", "trace"] }
tracing = "0.1"
tracing-subscriber = { version = "0.3", features = ["env-filter"] }
uuid = { version = "1", features = ["v4"] }
