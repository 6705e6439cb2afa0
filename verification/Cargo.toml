[package]
name = "orderbook_merge"
version = "0.1.0"
edition = "2021"
publish = false

[dependencies]
itertools = "0.10"
url = "2"
serde = { version = "1", features = ["derive"] }
serde_json = "1"
thiserror = "1"
anyhow = "1"
tokio = { version = "1", features = ["macros", "rt-multi-thread", "sync", "net", "time"] }
tokio-stream = "0.1"
tokio-tungstenite = { version = "0.18", features = ["rustls-tls-webpki-roots"] }
futures = "0.3"
futures-util = "0.3"
async-trait = "0.1"
tonic = "0.8"
prost = "0.11"
tracing = "0.1"
tracing-subscriber = "0.3"
