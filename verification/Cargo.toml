[package]
name = "dendro"
version = "0.1.0"
edition = "2021"
publish = false

[dependencies]
arrow = { version = "*", default-features = false }
bytes = "1"
parquet = { version = "*", default-features = false, features = ["arrow", "lz4"] }
rusqlite = { version = "*", features = ["bundled", "serialize"] }
serde_json = "1"
tracing = "0.1"
