[package]
name = "cmafly"
version = "0.1.0"
edition = "2021"
publish = false

[dependencies]
anyhow = "1"
axum = { version = "0.7", default-features = false, features = ["http1", "tokio"] }
blake3 = { version = "1", features = ["pure"] }
byteorder = "1"
bytes = "1"
clap = { version = "4", features = ["derive"] }
http-body = "1"
lru = "0.12"
memmap2 = "0.9"
tokio = { version = "1", features = ["macros", "net", "rt-multi-thread", "signal", "sync", "time"] }
