[package]
name = "necropolis"
version = "0.1.0"
edition = "2021"
publish = false

[dependencies]
anyhow = "=1.0.104"
async-stream = "=0.3.6"
axum = "=0.7.9"
hex = "=0.4.3"
rand = "=0.8.8"
reqwest = { version = "=0.12.28", default-features = false, features = ["json", "rustls-tls"] }
rusqlite = { version = "=0.31.0", features = ["bundled"] }
serde = { version = "=1.0.229", features = ["derive"] }
serde_json = "=1.0.154"
sha2 = "=0.10.9"
tokio = { version = "=1.54.1", features = ["full"] }
tracing = "=0.1.44"
tracing-subscriber = "=0.3.23"
