[package]
name = "hellcall"
version = "0.1.0"
edition = "2021"
publish = false

[dependencies]
anyhow = "*"
cpal = "*"
env_logger = "*"
inquire = "*"
log = "*"
rand = "*"
rdev = "*"
rodio = "*"
serde = { version = "*", features = ["derive"] }
toml = "*"
vosk = "*"
webrtc-vad = "*"

[dev-dependencies]
strsim = "*"
