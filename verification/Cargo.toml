[package]
name = "tokio-muxt"
version = "0.1.0"
edition = "2021"
publish = false

[dependencies]
pin-project = "1"
tokio = { version = "1", features = ["time"] }
