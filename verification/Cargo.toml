[package]
name = "espresso_core"
version = "0.1.0"
edition = "2021"
publish = false

[dependencies]
sha2 = "0.10"
alloy = { version = "*", default-features = false }
tokio = { version = "1", features = ["rt", "rt-multi-thread", "time", "sync"] }
tokio-util = { version = "0.7", features = ["rt"] }
anyhow = "1"
thiserror = "2"
serde = { version = "1", features = ["derive"] }
bincode = "1"
tracing = "0.1"
