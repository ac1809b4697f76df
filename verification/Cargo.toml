[package]
name = "secinfra"
version = "0.1.0"
edition = "2021"
publish = false

[dependencies]
anyhow = "=1.0.104"
arrow-array = "=55.2.0"
arrow-schema = "=55.2.0"
async-stream = "=0.3.6"
bytes = "=1.12.1"
chrono = { version = "=0.4.45", features = ["serde"] }
futures = "=0.3.34"
indexmap = { version = "=2.14.2", features = ["serde"] }
parquet = { version = "=55.2.0", default-features = false, features = ["arrow", "snap", "zstd"] }
quick-xml = "=0.37.5"
reqwest = { version = "=0.12.28", default-features = false, features = ["rustls-tls", "stream"] }
scraper = "=0.23.1"
serde = { version = "=1.0.229", features = ["derive"] }
serde_json = "=1.0.154"
tokio = { version = "=1.54.1", features = ["rt", "rt-multi-thread", "sync", "time", "macros"] }
tracing = "=0.1.44"
zip = { version = "=2.6.1", default-features = false, features = ["deflate"] }
zstd = { version = "=0.13.4", features = ["zstdmt"] }
