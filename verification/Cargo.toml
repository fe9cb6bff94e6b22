[package]
name = "edge_cache"
version = "0.1.0"
edition = "2021"
publish = false

[dependencies]
tokio = { version = "*", features = ["full"] }
serde = { version = "*", features = ["derive"] }
serde_yaml = "*"
async-compression = { version = "*", features = ["tokio", "gzip"] }
notify = "*"
