[package]
name = "veyra"
version = "0.1.0"
edition = "2021"
publish = false

[dependencies]
crc32c = "0.6"
pgwire-replication = "*"
serde = { version = "1", features = ["derive"] }
tokio-postgres = "0.7"

[dev-dependencies]
serde_json = "1"
