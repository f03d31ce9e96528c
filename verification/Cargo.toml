[package]
name = "marvel_explorer"
version = "0.1.0"
edition = "2021"
publish = false

[dependencies]
rust-crypto = "=0.2.36"
serde_json = "1"
futures = "0.3"
hyper = { version = "0.14", features = ["client", "http1", "tcp"] }
hyper-tls = "0.5"
tokio = { version = "1", features = ["full"] }
log = "0.4"
env_logger = "0.11"
dotenv = "0.15"
prettytable-rs = "0.10"
