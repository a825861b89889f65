[package]
name = "leaf_codec"
version = "0.1.0"
edition = "2021"
publish = false

[dependencies]
bincode = "1"
serde = "1"
serde_derive = "1"
serde_json = "1"
serde_cbor = "0.11"
