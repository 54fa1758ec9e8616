[package]
name = "rust_local_server"
version = "0.1.0"
edition = "2021"
publish = false

[dependencies]
mio = { version = "0.8", features = ["net", "os-poll"] }
serde = { version = "1", features = ["derive"] }
serde_yaml = "0.9"
env_logger = "0.10"
