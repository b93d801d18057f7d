[package]
name = "formualizer_engine_v2_poc"
version = "0.1.0"
edition = "2021"
publish = false

[dependencies]
anyhow = "1"
serde_json = "1"
zip = { version = "*", default-features = false, features = ["deflate"] }
