[package]
name = "rdkv"
version = "0.1.0"
edition = "2021"
publish = false

[dependencies]
ahash = "*"
bytes = "*"
tokio = { version = "*", features = ["full"] }
