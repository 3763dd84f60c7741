[package]
name = "gomoku_rm"
version = "0.1.0"
edition = "2021"
publish = false

[dependencies]
anyhow = "1"
env_logger = "*"
libremarkable = "*"
log = "0.4"
serde = { version = "1", features = ["derive"] }
serde_yaml = "*"
