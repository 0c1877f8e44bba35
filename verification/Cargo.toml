[package]
name = "voice-assistant"
version = "0.1.0"
edition = "2021"
publish = false

[dependencies]
anyhow = "1"
cpal = "*"
encoding_rs = "0.8"
hound = "3"
libloading = "0.8"
ndarray = "0.16"
ort = "=2.0.0-rc.10"
reqwest = { version = "0.12", default-features = false, features = ["json"] }
serde = { version = "1", features = ["derive"] }
serde_json = "1"
tokio = { version = "1", features = ["full"] }
toml = "0.8"
tracing = "0.1"
tracing-subscriber = { version = "0.3", features = ["env-filter"] }
transcribe-cpp = "*"
