[package]
name = "drone_harness"
version = "0.1.0"
edition = "2021"
publish = false

[dependencies]
crossbeam-channel = "=0.5.17"
rand = "=0.8.8"
serde = { version = "1", features = ["derive"] }
toml = "=0.9.8"

[dev-dependencies]
crossbeam-utils = "=0.8.23"
