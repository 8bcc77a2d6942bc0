[package]
name = "skynet"
version = "0.1.0"
edition = "2021"
publish = false

[dependencies]
axum = "0.7"
bytes = "1"
futures-util = "0.3"
prometheus = { version = "0.13", default-features = false }
reqwest = { version = "0.12", default-features = false, features = ["json", "stream"] }
serde = { version = "1", features = ["derive"] }
tokio = { version = "1", features = ["full"] }
