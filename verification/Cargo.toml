[package]
name = "sink"
version = "0.1.0"
edition = "2021"
publish = false

[dependencies]
ring = "0.17"
hex = "0.4"
jiff = { version = "0.2", features = ["serde"] }
uuid = { version = "1", features = ["v4"] }
chrono = "0.4"
serde = { version = "1", features = ["derive"] }
serde_json = "1"
tokio = { version = "1", features = ["macros", "rt-multi-thread", "net", "sync", "time"] }
tokio-tungstenite = "*"
futures-util = { version = "0.3", features = ["sink"] }
anyhow = "1"
nanoid = "0.4"

[dev-dependencies]
rand = "0.9"
