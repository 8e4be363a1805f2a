[package]
name = "bitefluent"
version = "0.1.0"
edition = "2021"
publish = false

[dependencies]
base64 = "=0.22.1"
serde = { version = "=1.0.229", features = ["derive"] }
serde_json = "=1.0.154"
chrono = "=0.4.45"
time = "=0.3.55"
uuid = { version = "=1.29.0", features = ["v4"] }
anyhow = "=1.0.104"
futures-util = "=0.3.34"
async-trait = "=0.1.92"
dotenvy = "=0.15.7"
reqwest = { version = "=0.12.28", default-features = false, features = ["json", "rustls-tls"] }
tokio = { version = "=1.54.1", features = ["rt-multi-thread", "macros"] }
