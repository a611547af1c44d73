[package]
name = "ciqadamq"
version = "0.1.0"
edition = "2021"
publish = false

[dependencies]
anyhow = "1"
argon2 = { version = "=0.5.3", features = ["std"] }
async-trait = "0.1"
axum = "0.8"
bincode = "1"
env_logger = { version = "0.11", default-features = false }
hmac = "=0.12.1"
log = "0.4"
mimalloc = "0.1"
redb = "2"
reqwest = { version = "0.12", default-features = false, features = ["json"] }
rmqtt = { version = "=0.19.1", features = ["auto-subscription", "msgstore", "plugin", "ws"] }
rumqttc = { version = "0.24", default-features = false }
serde = { version = "1", features = ["derive"] }
serde_json = "1"
sha2 = "=0.10.9"
tokio = { version = "1", features = ["full"] }
toml = "0.8"
