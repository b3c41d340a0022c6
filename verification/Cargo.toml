[package]
name = "mixflow"
version = "0.1.0"
edition = "2021"
publish = false

[dependencies]
base64 = "0.22"
serde = { version = "1", features = ["derive"] }
serde_json = "1"
parking_lot = "0.12"
ringbuf = "0.4"
cpal = "0.15"
