[package]
name = "offers_studio"
version = "0.1.0"
edition = "2021"
publish = false

[dependencies]
portable-pty = "*"
md5 = "*"
serde = { version = "1", features = ["derive"] }
serde_json = "1"
dirs = "*"
chrono = "0.4"
notify = "*"
parking_lot = "0.12"
