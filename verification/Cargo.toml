[package]
name = "wurl"
version = "0.1.0"
edition = "2021"
publish = false

[dependencies]
reqwest = "=0.12.28"
serde_json = "=1.0.154"
tokio = { version = "=1.54.1", features = ["rt-multi-thread", "macros"] }
clap = { version = "=4.6.7", features = ["derive"] }
thiserror = "=2.0.21"
colored_json = "=5.0.0"
regex = "1"
