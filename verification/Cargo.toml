[package]
name = "torrent_client"
version = "0.1.0"
edition = "2021"
publish = false

[dependencies]
bit-vec = "0.6"
sha1 = "0.10"
url = "2"
rand = "0.8"
serde = "1"
serde_derive = "1"
serde_bencode = "0.2"
serde_bytes = "0.11"
tokio = { version = "1", features = ["full"] }
reqwest = { version = "0.12", default-features = false }
clap = { version = "4", features = ["derive"] }
env_logger = "0.11"
log = "0.4"
