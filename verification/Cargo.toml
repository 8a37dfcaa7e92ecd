[package]
name = "agentstate"
version = "0.1.0"
edition = "2021"
publish = false

[dependencies]
async-trait = "0.1"
blake3 = { version = "1", default-features = false, features = ["std", "pure"] }
chrono = { version = "0.4", features = ["serde"] }
ciborium = "0.2"
clap = { version = "4", features = ["derive"] }
crc32c = "0.6"
parking_lot = "0.12"
serde = { version = "1", features = ["derive"] }
serde_json = "1"
thiserror = "1"
tokio = { version = "1", features = ["rt", "sync", "time", "macros"] }
ulid = "1"
zstd = "0.13"
