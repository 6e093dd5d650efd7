[package]
name = "blockchain_explorer"
version = "0.1.0"
edition = "2021"
publish = false

[dependencies]
anyhow = "1"
lmdb = "0.8"
serde = { version = "1", features = ["derive"] }
serde_json = "1"
tempdir = "0.3"
