[package]
name = "rust_app"
version = "0.1.0"
edition = "2021"
publish = false

[dependencies]
axum = "0.8"
axum-extra = { version = "0.10", features = ["multipart"] }
tokio = { version = "1", features = ["full"] }
tokio-postgres = "0.7"
serde = { version = "1", features = ["derive"] }
serde_json = "1"
clap = { version = "4", features = ["derive"] }
glob = "0.3"
lindera = "*"
candle-core = "*"
candle-nn = "*"
candle-transformers = "*"
hf-hub = { version = "0.4", default-features = false, features = ["ureq"] }
tokenizers = { version = "0.22", default-features = false, features = ["onig"] }

[dev-dependencies]
regex = "1"
