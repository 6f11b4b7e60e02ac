[package]
name = "dense_search"
version = "0.1.0"
edition = "2021"
publish = false

[dependencies]
anyhow = "=1.0.104"
axum = "=0.7.9"
bincode = "=2.0.1"
candle-core = "=0.11.0"
candle-nn = "=0.11.0"
candle-transformers = "=0.11.0"
csv = "=1.4.0"
hf-hub = { version = "*", default-features = false, features = ["ureq"] }
rayon = "=1.12.0"
serde = { version = "=1.0.229", features = ["derive"] }
serde_json = "=1.0.154"
tokenizers = "=0.22.2"
tokio = { version = "=1.54.1", features = ["macros", "rt-multi-thread", "net"] }
