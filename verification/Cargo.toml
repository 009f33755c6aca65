[package]
name = "oxygn"
version = "0.1.0"
edition = "2021"
publish = false

[dependencies]
mini-moka = "0.10"
serde = { version = "1", features = ["derive"] }
serde_yaml = "0.9"
socket2 = { version = "0.5", features = ["all"] }
tokio = { version = "1", features = ["full"] }
