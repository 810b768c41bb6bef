[package]
name = "propylaea"
version = "1.0.1"
edition = "2021"
publish = false

[dependencies]
anyhow = "=1.0.104"
axum = "=0.8.9"
base64 = "=0.22.1"
bytes = "=1.12.1"
chrono = "=0.4.45"
clap = "=4.6.7"
dashmap = "=6.2.1"
dotenvy = "=0.15.7"
ed25519-dalek = { version = "=2.2.0", features = ["rand_core"] }
futures-util = "=0.3.34"
hex = "=0.4.3"
hmac = "=0.12.1"
hostname = "=0.4.2"
libc = "=0.2.191"
rand = "=0.8.8"
reqwest = { version = "=0.12.28", default-features = false, features = ["rustls-tls", "stream", "json"] }
serde_json = "=1.0.154"
sha2 = "=0.10.9"
tokio = { version = "=1.54.1", features = ["full"] }
tower-http = { version = "=0.6.11", features = ["trace"] }
tracing = "=0.1.44"
tracing-subscriber = { version = "=0.3.23", features = ["env-filter"] }
uuid = { version = "=1.29.0", features = ["v4", "serde"] }
