[package]
name = "navpath"
version = "0.1.0"
edition = "2021"
publish = false

[dependencies]
arc-swap = "1"
axum = "0.7"
blake3 = { version = "1", features = ["pure"] }
byteorder = "1"
libc = "0.2"
lru = "*"
memmap2 = "0.9"
mimalloc = "*"
rusqlite = { version = "*", features = ["bundled"] }
rustc-hash = "2"
serde = { version = "1", features = ["derive"] }
serde_json = { version = "1", features = ["raw_value"] }
thiserror = "1"
anyhow = "1"
tokio = { version = "1", features = ["rt-multi-thread", "macros", "net", "sync", "time", "signal"] }
tracing = "0.1"
tracing-appender = "0.2"
tracing-subscriber = { version = "0.3", features = ["env-filter", "json"] }
