[package]
name = "resume_stats"
version = "0.1.0"
edition = "2021"
publish = false

[dependencies]
anyhow = "=1.0.104"
console = "=0.16.6"
dialoguer = "=0.12.0"
futures-util = "=0.3.34"
indicatif = "=0.18.6"
keyring = "=4.2.0"
octocrab = "=0.47.1"
serde = { version = "=1.0.229", features = ["derive"] }
tokio = { version = "=1.53.2", features = ["full"] }
toml = "=1.1.6"
whoami = "=2.1.3"
