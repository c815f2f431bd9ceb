[package]
name = "rapport"
version = "0.1.0"
edition = "2021"
publish = false

[dependencies]
addr = "0.15"
bytes = "1"
clap = { version = "4", features = ["derive"] }
dashmap = "6"
hickory-resolver = "0.24"
lendpool = "*"
serde = { version = "1", features = ["derive"] }
serde_derive = "1"
thiserror = "1"
tokio = { version = "1", features = ["full"] }
toml = "0.8"
tracing = "0.1"
tracing-futures = "0.2"
tracing-subscriber = { version = "0.3", features = ["env-filter"] }
