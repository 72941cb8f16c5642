[package]
name = "chat_core"
version = "0.1.0"
edition = "2021"
publish = false

[dependencies]
redb = "*"
uuid = { version = "*", features = ["v4"] }
tokio = { version = "*", features = ["rt-multi-thread", "sync", "time", "macros"] }
serde = { version = "*", features = ["derive"] }
serde_json = "*"
