[package]
name = "wonderful_pe"
version = "0.1.0"
edition = "2021"
publish = false

[dependencies]
csv = "1"
env_logger = "*"
serde = { version = "1", features = ["derive"] }
thiserror = "1"
