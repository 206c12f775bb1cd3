[package]
name = "combee"
version = "0.1.0"
edition = "2021"
publish = false

[dependencies]
serde = { version = "=1.0.229", features = ["derive"] }
csv = "=1.4.0"
log = "=0.4.34"
parquet = "=60.0.0"
serde_arrow = { version = "=0.15.1", features = ["arrow-60"] }
