[package]
name = "mmorpg_lab"
version = "0.1.0"
edition = "2021"
publish = false

[dependencies]
bytes = "1"
aho-corasick = "1"
bincode = "1"
uuid = { version = "1", features = ["v4"] }
serde = { version = "1", features = ["derive"] }
serde_json = "1"
tokio = { version = "1", features = ["rt-multi-thread", "macros", "net"] }
axum = "0.8"
redis = { version = "*", features = ["tokio-comp"] }
