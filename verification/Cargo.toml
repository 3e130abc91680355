[package]
name = "bookmarker"
version = "0.1.0"
edition = "2021"
publish = false

[dependencies]
anyhow = "1"
clap = { version = "4", features = ["derive"] }
cursive = "0.21"
home = "0.5"
serde = { version = "1", features = ["derive"] }
serde_yaml = "0.9"
webbrowser = "1"
