[package]
name = "receipt_ledger"
version = "0.1.0"
edition = "2021"
publish = false

[dependencies]
anyhow = "1.0"
blake3 = "1.5"
rocksdb = "0.22"
rusqlite = { version = "0.31", features = ["bundled"] }
serde_json = "1.0"
toml = "0.8"
