[package]
name = "cliptown-desktop"
version = "0.1.0"
edition = "2021"
publish = false

[dependencies]
anyhow = "=1.0.104"
base64 = "=0.22.1"
blake3 = "=1.8.7"
btleplug = "=0.13.5"
chrono = { version = "=0.4.45", features = ["serde"] }
clap = { version = "=4.6.7", features = ["derive", "env"] }
clipboard-rs = "=0.3.5"
directories = "=6.0.0"
ed25519-dalek = "=2.2.0"
futures = "=0.3.34"
getrandom = "=0.3.4"
hex = "=0.4.3"
hmac = "=0.12.1"
keyring = { version = "=3.6.3", features = ["apple-native", "windows-native", "async-secret-service", "tokio", "crypto-rust"] }
rusqlite = { version = "=0.37.0", features = ["bundled-sqlcipher-vendored-openssl"] }
serde = { version = "=1.0.229", features = ["derive"] }
serde_json = "=1.0.154"
sha2 = "=0.10.9"
sqlite-vec = "=0.1.9"
thiserror = "=2.0.21"
tokio = { version = "=1.54.1", features = ["rt", "time"] }
uuid = { version = "=1.29.0", features = ["v4", "serde"] }
zeroize = "=1.9.1"
