[package]
name = "stomp_broker"
version = "0.1.0"
edition = "2021"
publish = false

[dependencies]
bytes = "0.5"
tokio = { version = "0.2", features = ["full"] }
tokio-util = { version = "0.2", features = ["codec"] }
async-std = "1"
futures = "0.3"
serde = { version = "1", features = ["derive"] }
serde_json = "1"
