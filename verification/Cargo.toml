[package]
name = "rehash"
version = "0.1.0"
edition = "2021"
publish = false

[dependencies]
blake3 = "1"
zstd = "0.13"
serde = { version = "1", features = ["derive"] }
serde_json = "1"
chrono = { version = "0.4", features = ["serde"] }
tar = "0.4"
tokio = { version = "1", features = ["full"] }
clap = { version = "4", features = ["derive"] }
dirs = "5"
notify = "6"
thiserror = "1"
tracing = "0.1"
tracing-subscriber = "0.3"
anyhow = "1"
