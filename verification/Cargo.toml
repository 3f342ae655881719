[package]
name = "hanzi_srs"
version = "0.1.0"
edition = "2021"
publish = false

[dependencies]
chrono = "*"
encoding_rs = "*"
rusqlite = { version = "*", features = ["bundled"] }
serde = { version = "*", features = ["derive"] }
serde_json = "*"
