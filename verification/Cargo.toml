[package]
name = "pty_sidecar"
version = "0.1.0"
edition = "2021"
publish = false

[dependencies]
dashmap = "*"
uuid = { version = "*", features = ["v4"] }
anyhow = "*"
tokio = { version = "*", features = ["full"] }
tokio-tungstenite = "*"
futures-util = "*"
portable-pty = "*"

[dev-dependencies]
serde_json = "*"
