[package]
name = "redis_starter_rust"
version = "0.1.0"
edition = "2021"
publish = false

[dependencies]
tokio = { version = "1", features = ["full"] }
bytes = "1"
futures = "0.3"
hex = "0.4"
