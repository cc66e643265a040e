[package]
name = "echolot"
version = "0.1.0"
edition = "2021"
publish = false

[dependencies]
reed-solomon-erasure = "6"
rust-lzma = "0.6"
bincode = "1"
serde = { version = "1", features = ["derive"] }
crc32fast = "1"
base64 = "0.13"
clap = { version = "4", features = ["derive"] }
cpal = "0.15"
rodio = "0.19"
rtrb = "0.3"
indicatif = "0.17"
inquire = "0.7"
rustfft = "6"

[dev-dependencies]
rand = "*"
