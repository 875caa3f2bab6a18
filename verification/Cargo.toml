[package]
name = "lavawm"
version = "0.1.0"
edition = "2021"
publish = false

[dependencies]
anyhow = "1"
serde = { version = "1", features = ["derive"] }
tokio = { version = "1", features = ["rt", "macros", "sync"] }
tracing = "0.1"
uuid = { version = "1", features = ["v4", "serde"] }
