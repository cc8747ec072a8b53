[package]
name = "dirsync"
version = "0.1.0"
edition = "2021"
publish = false

[dependencies]
url = "*"
tokio = { version = "*", features = ["full"] }
tokio-tungstenite = "*"
futures = "*"
clap = { version = "*", features = ["derive"] }
env_logger = "*"
log = "*"
walkdir = "*"

[dev-dependencies]
serde_json = "*"
