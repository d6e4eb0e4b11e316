[package]
name = "transcriptor"
version = "0.1.0"
edition = "2021"
publish = false

[dependencies]
anyhow = "1"
serde = { version = "1", features = ["derive"] }
serde_json = "1"
sherpa-onnx = "=1.12.40"
ct2rs = "=0.9.22"
