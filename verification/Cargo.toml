[package]
name = "paraflate"
version = "0.1.0"
edition = "2021"
publish = false

[dependencies]
crc32fast = "1"
sha2 = "0.10"
clap = { version = "4", features = ["derive"] }
serde = { version = "1", features = ["derive"] }
serde_json = "1"
flate2 = "1"
tempfile = "3"
thiserror = "1"
zip = { version = "2", default-features = false, features = ["deflate"] }
memmap2 = "0.9"
parking_lot = "0.12"
crossbeam-channel = "0.5"
itertools = "0.13"
