[package]
name = "marketsync"
version = "0.1.0"
edition = "2021"
publish = false

[dependencies]
serde = { version = "*", features = ["derive"] }
serde_json = "*"
serde_yaml = "*"
chrono = "*"
reqwest = { version = "*", default-features = false, features = ["blocking"] }
hmac = "*"
sha2 = "*"
hex = "*"
base64 = "*"
log = "*"
env_logger = "*"
