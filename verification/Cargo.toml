[package]
name = "bencode_torrent"
version = "0.1.0"
edition = "2021"
publish = false

[dependencies]
hex = "*"
indexmap = "*"
reqwest = { version = "*", default-features = false }
sha1 = "*"
url = "*"
