[package]
name = "crown-indexer"
version = "0.1.0"
edition = "2021"
publish = false

[dependencies]
bs58 = "0.5"
candid = "0.10"
ciborium = "0.2"
ic-cdk = "0.19"
ic-certified-map = "0.4"
serde = { version = "1", features = ["derive"] }
sha2 = "0.10"
solana-program = "2"
