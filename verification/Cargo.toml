[package]
name = "pixel_vault"
version = "0.1.0"
edition = "2021"
publish = false

[dependencies]
solana-keccak-hasher = { version = "=3.1.0", features = ["sha3"] }
