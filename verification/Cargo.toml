[package]
name = "dupfind"
version = "0.1.0"
edition = "2021"
publish = false

[dependencies]
blake3 = { version = "1", features = ["pure"] }
sha2 = "0.10"
twox-hash = "1.6"
regex = "1"
rayon = "1"
hex = "0.4"
walkdir = "2"
indicatif = "0.17"
serde = { version = "1", features = ["derive"] }
serde_json = "1"
