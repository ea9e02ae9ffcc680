[package]
name = "search_index"
version = "0.1.0"
edition = "2021"
publish = false

[dependencies]
blake3 = "1"
content_inspector = "*"
crc32fast = "1"
globset = "0.4"
ignore = "0.4"
log = "0.4"
memchr = "2"
rayon = "1"
regex = "1"
regex-syntax = "0.8"
serde = { version = "1", features = ["derive"] }
serde_json = "1"
sha2 = "0.10"
