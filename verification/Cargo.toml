[package]
name = "cafe"
version = "0.1.0"
edition = "2021"
publish = false

[dependencies]
crc32fast = "1"
zstd = "0.13"
half = "2"
image = { version = "0.25", default-features = false, features = ["png"] }
log = "0.4"
rayon = "1"
serde_json = "1"
