[package]
name = "phantom_service"
version = "0.1.0"
edition = "2021"
publish = false

[dependencies]
ruma = { version = "=0.17.2", features = ["events"] }
serde_json = "=1.0.154"
serde = { version = "=1.0.229", features = ["derive"] }
base64 = "=0.22.1"
