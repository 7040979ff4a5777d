[package]
name = "new_pbft"
version = "0.1.0"
edition = "2021"
publish = false

[dependencies]
rsa = "=0.9.10"
sha2 = { version = "=0.10.9", features = ["oid"] }
rocksdb = { version = "=0.21.0", default-features = false }
serde = { version = "=1.0.229", features = ["derive"] }
serde_json = "=1.0.154"
tokio = { version = "=1.54.1", features = ["full"] }
rand = "=0.8.8"
dotenv = "=0.15.0"

[dev-dependencies]
bincode = "=1.3.3"
