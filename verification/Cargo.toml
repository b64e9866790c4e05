[package]
name = "lan_mesh"
version = "0.1.0"
edition = "2021"
publish = false

[dependencies]
base64 = "=0.23.1"
chacha20poly1305 = "=0.11.0"
rand = "=0.10.3"
serde = { version = "=1.0.229", features = ["derive"] }
serde_json = "=1.0.154"
toml = "=1.1.8"
chrono = "=0.4.45"
socket2 = { version = "=0.6.5", features = ["all"] }
tun-rs = "=2.8.16"
