[package]
name = "halter_goals"
version = "0.1.0"
edition = "2021"
publish = false

[dependencies]
async-trait = "0.1"
lru = "*"
rusqlite = { version = "*", features = ["bundled"] }
serde = { version = "1", features = ["derive"] }
serde_json = "1"
sha2 = "0.10"
thiserror = "2"
tokio = { version = "1", features = ["rt", "sync", "time"] }
tokio-util = "0.7"
uuid = { version = "1", features = ["v4"] }
