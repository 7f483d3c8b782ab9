[package]
name = "face_service"
version = "0.1.0"
edition = "2021"
publish = false

[dependencies]
base64 = "*"
image = "*"
serde = { version = "*", features = ["derive"] }
serde_json = "*"
rustface = "*"
