[package]
name = "onchg"
version = "0.1.0"
edition = "2021"
publish = false

[dependencies]
patch = "*"
clap = { version = "*", features = ["derive"] }
env_logger = "*"
ignore = "*"
anyhow = "*"
log = "*"
