[package]
name = "gomoku_engine"
version = "0.1.0"
edition = "2021"
publish = false

[dependencies]
anyhow = "*"
serde = { version = "*", features = ["derive"] }
serde_json = "*"
serde_repr = "*"
websocket = { version = "*", default-features = false, features = ["sync"] }
