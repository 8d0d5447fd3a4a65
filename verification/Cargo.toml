[package]
name = "daemon_wallet"
version = "0.1.0"
edition = "2021"
publish = false

[dependencies]
alloy-primitives = { version = "=1.7.3", features = ["serde"] }
argon2 = "=0.5.3"
blake2 = "=0.10.6"
chacha20poly1305 = "=0.10.1"
ciborium = "=0.2.2"
getrandom = "=0.2.17"
region = "=3.0.2"
serde = { version = "=1.0.229", features = ["derive"] }
serde_bytes = "=0.11.19"
tempfile = "=3.27.0"
thiserror = "=1.0.69"
zeroize = "=1.9.1"

[dev-dependencies]
hex = "=0.4.3"
