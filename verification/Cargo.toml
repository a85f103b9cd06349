[package]
name = "pearson"
version = "0.1.0"
edition = "2021"
publish = false

[dependencies]
csv = "1"
clap = { version = "4", features = ["derive"] }
log = "0.4"
env_logger = "0.11"
