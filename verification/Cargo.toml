[package]
name = "listening_stats"
version = "0.1.0"
edition = "2021"
publish = false

[dependencies]
chrono = { version = "0.4", default-features = false, features = ["std"] }
fnv = "1"
csv = "1"
serde = { version = "1", features = ["derive"] }
tokio = { version = "1", features = ["sync"] }
lazy_static = "1"
