[package]
name = "radiumical_core"
version = "0.1.0"
edition = "2021"
publish = false

[dependencies]
anyhow = "1"
base64 = "0.22"
chrono = "0.4"
dirs = "5"
serde = { version = "1", features = ["derive"] }
serde_json = "1"
similar = "2"
toml = "0.8"
walkdir = "2"
zstd = "0.13"
