[package]
name = "sloppy"
version = "0.1.0"
edition = "2021"
publish = false

[dependencies]
rand = "0.8"

[dev-dependencies]
bt_bencode = "*"
serde_bytes = "*"
