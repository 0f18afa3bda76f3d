[package]
name = "build_signals"
version = "0.1.0"
edition = "2021"
publish = false

[dependencies]
anyhow = "1"
dupe = "*"
itertools = "0.10"
tokio = { version = "1", features = ["rt", "sync"] }
tokio-stream = "0.1"
