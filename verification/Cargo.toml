[package]
name = "replibyte"
version = "0.1.0"
edition = "2021"
publish = false

[dependencies]
anyhow = "=1.0.104"
clap = { version = "=3.2.25", features = ["derive"] }
env_logger = "=0.9.3"
indicatif = "0.17"
log = "=0.4.34"
prettytable-rs = "=0.8.0"
serde = { version = "=1.0.229", features = ["derive"] }
serde_yaml = "=0.8.26"
