[package]
name = "fraud_detection"
version = "0.1.0"
edition = "2021"
publish = false
rust-version = "1.95"

[dependencies]
anyhow = "=1.0.104"
axum = "=0.8.9"
chrono = { version = "=0.4.45", features = ["serde"] }
dotenvy = "=0.15.7"
flate2 = "=1.1.10"
half = "=2.7.1"
# Asked for by tract-onnx; later versions need a newer compiler than rust-version.
kstring = "=2.0.2"
libc = "=0.2.191"
memchr = "=2.8.3"
memmap2 = "=0.9.12"
mimalloc = { version = "=0.1.52", default-features = false }
serde = { version = "=1.0.229", features = ["derive"] }
serde_json = "=1.0.154"
smallvec = "=1.16.4"
sonic-rs = "=0.3.17"
tokio = { version = "=1.54.1", features = ["full"] }
tract-onnx = "=0.21.10"
