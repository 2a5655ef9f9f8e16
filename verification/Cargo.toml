[package]
name = "comb"
version = "0.1.0"
edition = "2021"
publish = false

[dependencies]
anyhow = "=1.0.104"
async-trait = "=0.1.92"
aws-config = { version = "=1.13.0", default-features = false, features = ["rt-tokio"] }
aws-sdk-s3 = { version = "=1.157.0", default-features = false, features = ["rt-tokio"] }
blake3 = { version = "=1.8.7", default-features = false, features = ["std", "pure"] }
bytes = "=1.12.1"
chrono = "=0.4.45"
clap = { version = "=4.6.7", features = ["derive"] }
hex = "=0.4.3"
rand = "=0.9.5"
serde = { version = "=1.0.229", features = ["derive"] }
serde_json = { version = "=1.0.154", features = ["preserve_order"] }
thiserror = "=2.0.21"
tokio = { version = "=1.54.1", features = ["full"] }
tokio-util = "=0.7.20"
toml = "=0.8.23"
