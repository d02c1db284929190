[package]
name = "protogue"
version = "0.1.0"
edition = "2021"
publish = false

[dependencies]
bracket-lib = "0.8"
bracket-random = "0.8"
legion = { version = "0.4", default-features = false }
lazy_static = "1"
serde = { version = "1", features = ["derive"] }
serde_json = "1"
