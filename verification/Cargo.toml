[package]
name = "bili_add_on"
version = "0.1.0"
edition = "2021"
publish = false

[dependencies]
anyhow = "1"
bit-set = "=0.11.1"
clap = { version = "4", features = ["derive"] }
cosmic-text = "=0.19.0"
crossbeam-channel = "0.5"
encoding_rs = "=0.8.44"
env_logger = "0.11"
ffmpeg-next = "=9.0.0"
flate2 = "=1.1.10"
image = { version = "=0.25.10", default-features = false }
mimalloc = "0.1"
quick-xml = "=0.40.1"
regex = "=1.13.1"
reqwest = { version = "0.12", default-features = false, features = ["blocking", "rustls-tls"] }
serde_json = "=1.0.154"
sys-locale = "=0.3.2"
tempfile = "3"
