[package]
name = "obsidian_mcp"
version = "0.1.0"
edition = "2021"
publish = false

[dependencies]
yaml-rust2 = "*"
regex-syntax = "*"
rmcp = { version = "*", features = ["server", "transport-io", "macros"] }
tokio = { version = "1", features = ["full"] }
serde = { version = "1", features = ["derive"] }
serde_json = "1"
walkdir = "2"
chrono = "0.4"
anyhow = "1"
tracing = "*"
tracing-subscriber = "*"

[dev-dependencies]
regex = "1"
