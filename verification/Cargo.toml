[package]
name = "flowdb"
version = "0.1.0"
edition = "2021"
publish = false

[dependencies]
ahash = "0.8"
axum = "0.8"
base64 = "0.22"
clap = { version = "4", features = ["derive"] }
hdrhistogram = "7"
lru = "0.12"
lz4_flex = "0.11"
memmap2 = "0.9"
parking_lot = "0.12"
quote = "1"
serde = { version = "1", features = ["derive"] }
serde_json = "1"
syn = { version = "2", features = ["full"] }
thiserror = "2"
tokio = { version = "1", features = ["full"] }
toml = "0.8"
tower-http = { version = "0.6", features = ["cors", "trace"] }
tracing = "0.1"
tracing-subscriber = "0.3"
zstd = "0.13"
