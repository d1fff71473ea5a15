[package]
name = "idevice"
version = "0.1.0"
edition = "2021"
publish = false

[dependencies]
plist = "=1.10.3"
plist-macro = "=0.1.6"
chrono = "=0.4.45"
ed25519-dalek = { version = "=2.2.0", features = ["rand_core"] }
rsa = "=0.9.10"
uuid = { version = "=1.29.0", features = ["v3"] }
serde = "=1.0.229"
tokio = { version = "=1.54.1", features = ["fs", "rt", "time", "macros"] }
futures = "0.3"
async-stream = "0.3"
