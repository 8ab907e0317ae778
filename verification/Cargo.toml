[package]
name = "frame_classifier"
version = "0.1.0"
edition = "2021"
publish = false

[dependencies]
opencv = "*"

[dev-dependencies]
serde_json = "*"
