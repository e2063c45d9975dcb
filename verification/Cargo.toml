[package]
name = "mdfolio"
version = "0.1.0"
edition = "2021"
publish = false

[dependencies]
ammonia = "=4.2.4"
askama = "=0.16.1"
async-stream = "=0.3.6"
axum = { version = "=0.8.9", default-features = false, features = ["http1", "tokio"] }
comrak = { version = "=0.54.0", default-features = false, features = ["syntect-fancy"] }
ignore = "=0.4.34"
notify = "=8.2.1"
percent-encoding = "=2.3.2"
thiserror = "=2.0.21"
tokio = { version = "=1.54.1", features = ["fs", "io-util", "macros", "net", "rt", "signal", "sync", "time"] }
tracing = "=0.1.44"
