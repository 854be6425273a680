[package]
name = "hypno"
version = "0.1.0"
edition = "2021"
publish = false

[dependencies]
anyhow = "1"
axum = "0.7"
bytemuck = "1"
clap = { version = "4", features = ["derive"] }
env_logger = "0.11"
futures-util = "0.3"
half = { version = "2", features = ["bytemuck"] }
indicatif = "0.17"
log = "0.4"
memmap2 = "0.9"
parking_lot = "0.12"
rayon = "1"
reqwest = { version = "0.12", default-features = false, features = ["json", "stream", "rustls-tls"] }
safetensors = "0.4"
serde = { version = "1", features = ["derive"] }
serde_json = "1"
tempfile = "3"
thiserror = "1"
tokio = { version = "1", features = ["full"] }
tokio-stream = "0.1"
