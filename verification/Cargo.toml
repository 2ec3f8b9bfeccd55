[package]
name = "elevator"
version = "0.1.0"
edition = "2021"
publish = false

[dependencies]
serde = { version = "=1.0.229", features = ["derive"] }
serde_json = "=1.0.154"
crossbeam-channel = "=0.5.17"
socket2 = { version = "=0.3.19", features = ["reuseport"] }
