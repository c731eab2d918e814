[package]
name = "layer0"
version = "0.1.0"
edition = "2021"
publish = false

[dependencies]
rust-crypto = "0.2"
chrono = "0.4"
colored = "2"
json = "0.12"
lazy_static = "1"
serde = { version = "1", features = ["derive"] }
serde_derive = "1"
serde_json = "1"
