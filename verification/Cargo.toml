[package]
name = "safe_clean"
version = "0.1.0"
edition = "2021"
publish = false

[dependencies]
anyhow = "*"
clap = { version = "*", features = ["derive"] }
crossterm = "*"
dialoguer = "*"
ratatui = "*"
tokio = { version = "*", features = ["full"] }
walkdir = "*"
