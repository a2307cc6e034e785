[package]
name = "driver_indexer"
version = "0.1.0"
edition = "2021"
publish = false

[dependencies]
chardet = "=0.2.4"
encoding = "=0.2.33"
regex = "=1.13.1"
serde = { version = "=1.0.229", features = ["derive"] }
serde_json = "=1.0.154"
chrono = "=0.4.45"
console = "0.15"
