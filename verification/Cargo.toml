[package]
name = "richat"
version = "0.1.0"
edition = "2021"
publish = false

[dependencies]
affinity = "0.1"
base64 = "0.22"
bs58 = "0.5"
solana-sdk = "2.1"
serde = { version = "1", features = ["derive"] }
serde_json = "1"

[dev-dependencies]
prost = "0.13"
