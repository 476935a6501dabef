[package]
name = "floorcast"
version = "0.1.0"
edition = "2021"
publish = false

[dependencies]
native-tls = "=0.2.18"
serde = { version = "=1.0.229", features = ["derive"] }
serde_json = "=1.0.151"
serialport = { version = "=4.10.1", default-features = false }
tungstenite = "=0.30.0"
