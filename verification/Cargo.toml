[package]
name = "dash_spv_storage"
version = "0.1.0"
edition = "2021"
publish = false

[dependencies]
bincode = "=1.3.3"
tokio = { version = "1", features = ["full"] }
tracing = "0.1"
