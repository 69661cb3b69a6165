[package]
name = "flamer"
version = "0.1.0"
edition = "2021"
publish = false

[dependencies]
form_urlencoded = "=1.2.2"
percent-encoding = "=2.3.2"
serde_json = "=1.0.154"
serde = { version = "=1.0.229", features = ["derive"] }
axum = "=0.8.9"
tokio = { version = "=1.54.1", features = ["rt-multi-thread", "net", "macros"] }
bytes = "=1.12.1"
http-body-util = "=0.1.5"
