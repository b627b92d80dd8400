[package]
name = "redacted_geyser"
version = "0.1.0"
edition = "2021"
publish = false

[dependencies]
crossbeam-channel = "=0.5.17"
libc = "=0.2.191"
solana-pubkey = "=3.0.0"
solana-sdk = { version = "=3.0.0", default-features = false, features = ["full"] }
