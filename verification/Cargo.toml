[package]
name = "range_sync"
version = "0.1.0"
edition = "2021"
publish = false

[dependencies]
rand = "0.7.3"
slog = "2.5"
tokio = { version = "0.2", features = ["sync"] }
