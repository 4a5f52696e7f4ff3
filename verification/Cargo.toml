[package]
name = "pay_tx"
version = "0.1.0"
edition = "2021"
publish = false

[dependencies]
anyhow = "*"
csv = "*"
env_logger = "*"
futures = "*"
log = "*"
serde = "*"
tokio = { version = "*", features = ["rt-multi-thread", "macros", "sync", "io-util", "fs"] }
