[package]
name = "rb"
version = "0.1.0"
edition = "2021"
publish = false

[dependencies]
anyhow = "1"
blake3 = { version = "1", features = ["mmap"] }
crossbeam-channel = "0.5"
flate2 = "1"
glob = "0.3"
ignore = "0.4"
jobserver = "0.1"
reflink-copy = "*"
semver = { version = "1", features = ["serde"] }
serde = { version = "1", features = ["derive"] }
serde_json = "1"
shell-words = "1"
tar = "0.4"
toml = "*"
ureq = "*"
walkdir = "2"
zstd = { version = "0.13", features = ["zstdmt"] }

[dev-dependencies]
tempfile = "3"
