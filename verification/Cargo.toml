[package]
name = "rangeproof"
version = "0.1.0"
edition = "2021"
publish = false

[dependencies]
secp256k1 = { version = "*", features = ["global-context"] }
bitcoin_hashes = "*"
serde = "*"
