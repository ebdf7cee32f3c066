[package]
name = "calbot"
version = "0.1.0"
edition = "2021"
publish = false

[dependencies]
bincode = "1"
chrono = { version = "0.4", features = ["serde"] }
futures = "0.1"
itertools = "0.10"
lazy_static = "1"
reqwest = { version = "0.9", default-features = false }
serde = { version = "1", features = ["derive"] }
serde_json = "1"
