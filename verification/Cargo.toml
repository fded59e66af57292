[package]
name = "pid_legend"
version = "0.1.0"
edition = "2021"
publish = false

[dependencies]
regex = "1"
serde = { version = "1", features = ["derive"] }
serde_json = "1"
acadrust = "*"
flate2 = "1"
