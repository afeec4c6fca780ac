[package]
name = "actionkv"
version = "0.1.0"
edition = "2021"
publish = false

[dependencies]
bincode = "1"
byteorder = "1"
crc = "3"
regex = "1"
serde = { version = "1", features = ["derive"] }
serde_derive = "1"
serde_json = "1"
serde_cbor = "0.11"
clap = "3"
rand = "0.8"
reqwest = { version = "0.11", default-features = false, features = ["blocking"] }
trust-dns-client = "0.22"
