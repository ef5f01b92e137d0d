[package]
name = "mangashelf"
version = "0.1.0"
edition = "2021"
publish = false

[dependencies]
native_db = "=0.8.2"
native_model = "=0.4.20"
serde = { version = "=1.0.229", features = ["derive"] }
image = "=0.25.10"
