[package]
name = "backtester"
version = "0.1.0"
edition = "2021"
publish = false

[dependencies]
arrow = { version = "*", default-features = false }
chrono = "0.4"
chrono-tz = "*"
parquet = { version = "*", default-features = false, features = ["arrow", "snap"] }
rustc-hash = "*"
serde = { version = "1", features = ["derive"] }
serde_json = "1"
walkdir = "2"
