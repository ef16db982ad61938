[package]
name = "flowrun"
version = "0.1.0"
edition = "2021"
publish = false

[dependencies]
uuid = { version = "*", features = ["v4"] }
serde_json = "*"
actix-web = "*"
tokio = { version = "*", features = ["rt-multi-thread", "macros", "time"] }
env_logger = "*"
