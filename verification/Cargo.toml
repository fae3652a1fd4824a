[package]
name = "history_origin"
version = "0.1.0"
edition = "2021"
publish = false

[dependencies]
chrono = "0.4"
dotenv = "0.15"
serde = { version = "1", features = ["derive"] }
serde_json = "1"
solana-sdk = "1.17"
spl-associated-token-account = "2"
spl-pod = "0.1"
spl-token = "4"
spl-token-2022 = "1"
spl-token-metadata-interface = "0.2"

[dev-dependencies]
bs58 = "0.4"
