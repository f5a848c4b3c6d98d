[package]
name = "recom"
version = "0.1.0"
edition = "2021"
publish = false

[dependencies]
rand = { version = "0.8", features = ["small_rng"] }
crossbeam = "0.8"
crossbeam-channel = "0.5"
anyhow = "1"
serde_json = "1"
