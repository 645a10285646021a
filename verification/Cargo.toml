[package]
name = "radix_index"
version = "0.1.0"
edition = "2021"
publish = false

[dependencies]
rustc-hash = "=2.1.3"
serde_json = "=1.0.154"
xxhash-rust = { version = "=0.8.19", features = ["xxh3"] }
rand = "0.10"
tokio = { version = "=1.54.1", features = ["full"] }
futures = "=0.3.34"
axum = "=0.8.9"
reqwest = { version = "=0.12.28", default-features = false, features = ["stream"] }
tracing = "=0.1.44"
