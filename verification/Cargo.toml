[package]
name = "revset"
version = "0.1.0"
edition = "2021"
publish = false

[dependencies]
anyhow = "1"
futures = "0.1"
futures-util = { version = "0.3", features = ["compat"] }
