[package]
name = "orpheus"
version = "0.1.0"
edition = "2021"
publish = false

[dependencies]
scrypt = "=0.11.0"
uuid = { version = "=1.27.0", features = ["v4"] }
chrono = "=0.4.45"
serde = { version = "*", features = ["derive"] }
toml = "*"
pot = "*"
axum = "*"
tokio = { version = "*", features = ["rt-multi-thread", "macros", "net"] }
tower-http = { version = "*", features = ["cors", "trace"] }
tracing = "*"
tracing-subscriber = "*"
anyhow = "*"
dirs = "*"
