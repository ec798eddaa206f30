[package]
name = "mapreduce"
version = "0.1.0"
edition = "2021"
publish = false

[dependencies]
serde = { version = "=1.0.229", features = ["derive"] }
serde_json = "*"
tokio = { version = "=1.53.2", features = ["full"] }
