[package]
name = "agent_bridge"
version = "0.1.0"
edition = "2021"
publish = false

[dependencies]
tokio = { version = "1", features = ["rt-multi-thread", "net", "sync", "macros", "io-util", "io-std"] }
tokio-tungstenite = "*"
futures-util = "0.3"
serde = { version = "1", features = ["derive"] }
serde_json = "1"
