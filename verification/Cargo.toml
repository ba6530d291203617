[package]
name = "wdl"
version = "0.1.0"
edition = "2021"
publish = false

[dependencies]
anyhow = "1"
faster-hex = "0.9"
path-clean = "1"
serde = { version = "1", features = ["derive"] }
serde_json = "1"
url = "2"
