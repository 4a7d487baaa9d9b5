[package]
name = "myrulesiot"
version = "0.1.0"
edition = "2021"
publish = false

[dependencies]
tokio = { version = "*", features = ["rt-multi-thread", "macros", "sync", "time"] }
serde_json = "*"
config = "*"
env_logger = "*"
log = "*"
chrono = "*"
