[package]
name = "aurorium"
version = "0.1.0"
edition = "2021"
publish = false

[dependencies]
anyhow = "*"
axum = "*"
clap = { version = "*", features = ["derive", "env"] }
tokio = { version = "*", features = ["full"] }
tower = { version = "*", features = ["buffer", "limit", "timeout", "util"] }
