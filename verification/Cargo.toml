[package]
name = "ephemeral_file"
version = "0.1.0"
edition = "2021"
publish = false

[dependencies]
anyhow = "1"
camino = "=1.2.6"
thiserror = "1"
tokio = { version = "1", features = ["rt", "sync"] }
tokio-util = "0.7"

[dev-dependencies]
rand = "0.9"
