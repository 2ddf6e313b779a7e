[package]
name = "bittorrent_client"
version = "0.1.0"
edition = "2021"
publish = false

[dependencies]
anyhow = "1"
base64 = "0.21"
bytes = "1"
clap = { version = "4", features = ["derive"] }
hex = "0.4"
reqwest = { version = "0.11", default-features = false, features = ["blocking"] }
serde_urlencoded = "0.7"
sha1 = "0.10"

[dev-dependencies]
serde_bencode = "0.2"
