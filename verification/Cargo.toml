[package]
name = "processing_tech"
version = "0.1.0"
edition = "2021"
publish = false

[dependencies]
serde_json = "*"
rusqlite = "*"
anyhow = "*"
