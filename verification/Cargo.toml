[package]
name = "corro_agent"
version = "0.1.0"
edition = "2021"
publish = false

[dependencies]
rangemap = "=1.8.0"
rand = "=0.8.8"
tokio = { version = "=1.54.1", features = ["full"] }
hyper = { version = "=0.14.32", features = ["full"] }
axum = "=0.6.20"
tower = { version = "=0.4.13", features = ["full"] }
rusqlite = { version = "=0.29.0", features = ["bundled"] }
thiserror = "=1.0.69"
uuid = "=1.29.0"
bytes = "=1.12.1"
tracing = "=0.1.44"
eyre = "=0.6.14"
metrics = "=0.21.1"
trust-dns-resolver = "=0.22.0"
tokio-util = { version = "=0.7.20", features = ["codec"] }
serde_json = "=1.0.154"
foca = "=2.0.0"
parking_lot = "=0.12.5"
arc-swap = "1"
futures = "0.3"
tokio-stream = { version = "0.1", features = ["time"] }
tower-http = { version = "0.4", features = ["trace"] }
uhlc = "0.5"
