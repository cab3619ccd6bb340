[package]
name = "gif_tool"
version = "0.1.0"
edition = "2021"
publish = false

[dependencies]
regex-automata = "=0.4.18"
regex-syntax = "=0.8.11"
serde = { version = "=1.0.229", features = ["derive"] }
serde_json = "=1.0.154"
dirs = "=5.0.1"
serialport = { version = "=4.10.1", default-features = false }
tokio = { version = "=1.54.1", features = ["rt"] }
