[package]
name = "patchwork"
version = "0.1.0"
edition = "2021"
publish = false

[dependencies]
anyhow = "=1.0.104"
sacp = "=2.0.0"
sacp-conductor = "=4.0.0"
sacp-proxy = "=3.0.0"
sacp-tokio = "=2.1.0"
schemars = "=1.2.3"
serde = { version = "=1.0.229", features = ["derive"] }
serde_json = "=1.0.154"
tokio = { version = "=1.54.1", features = ["full"] }
