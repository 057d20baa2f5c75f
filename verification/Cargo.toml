[package]
name = "ipecho"
version = "0.1.0"
edition = "2021"
publish = false

[dependencies]
dns-lookup = "*"
hyper = { version = "0.14", features = ["full"] }
tokio = { version = "1", features = ["full"] }

[dev-dependencies]
serde_json = "1"
