[package]
name = "educartable_sync"
version = "0.1.0"
edition = "2021"
publish = false

[dependencies]
keyring = { version = "=2.3.3", default-features = false, features = ["linux-default-keyutils"] }
serde = { version = "=1.0.229", features = ["derive"] }
serde_json = "=1.0.154"
reqwest = { version = "=0.12.28", default-features = false, features = ["rustls-tls"] }
tokio = { version = "=1.54.1", features = ["time", "fs", "io-util", "rt", "macros"] }
async-trait = "=0.1.92"
log = "=0.4.35"
