[package]
name = "gwentdata"
version = "0.1.0"
edition = "2021"
publish = false

[dependencies]
scraper = "*"
serde = { version = "*", features = ["derive"] }
serde_json = "*"
anyhow = "*"
tokio = { version = "*", features = ["rt-multi-thread", "macros"] }
reqwest = { version = "*", default-features = false, features = ["form", "json"] }
axum = { version = "*", features = ["json"] }
tracing = "*"
tracing-subscriber = "*"
