[package]
name = "aid_rs"
version = "0.1.0"
edition = "2021"
publish = false

[dependencies]
base64 = "=0.23.1"
bs58 = "=0.5.1"
ed25519-dalek = "=3.0.0"
getrandom = "=0.2.17"
hickory-resolver = "=0.26.3"
httpdate = "=1.0.3"
idna = "=1.1.0"
reqwest = { version = "=0.13.5", default-features = false }
serde_json = "=1.0.151"
tokio = { version = "=1.53.2", features = ["rt", "time"] }
