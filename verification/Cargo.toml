[package]
name = "squadreplay"
version = "0.1.0"
edition = "2021"
publish = false

[dependencies]
crc32fast = "1"
zstd = "0.13"
serde = { version = "1", features = ["derive"] }
serde_json = "1"
rmp-serde = "1"
thiserror = "2"
