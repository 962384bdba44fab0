[package]
name = "linespec"
version = "0.1.0"
edition = "2021"
publish = false

[dependencies]
anyhow = "*"
base64 = "0.22"
chrono = "0.4"
clap = { version = "4", features = ["derive"] }
env_logger = "*"
gullwing = "=1.0.0-rc.1"
log = "*"
regex = "1"

[dev-dependencies]
serde_json = "1"
