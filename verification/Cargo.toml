[package]
name = "suru"
version = "0.1.0"
edition = "2021"
publish = false

[dependencies]
clap = { version = "*", features = ["derive"] }
crossbeam = "*"
env_logger = "*"
indicatif = "*"
indicatif-log-bridge = "*"
log = "*"
serde = { version = "*", features = ["derive"] }
serde_json = "*"
