[package]
name = "nybble"
version = "0.1.0"
edition = "2021"
publish = false

[dependencies]
flate2 = "1"
base64 = "0.22"
memmap2 = "0.9"
serde = { version = "1", features = ["derive"] }
serde_json = "1"
toml = "0.8"
thiserror = "1"
ureq = { version = "2", default-features = false }
