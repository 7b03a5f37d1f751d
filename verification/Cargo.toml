[package]
name = "my-redis"
version = "0.1.0"
edition = "2021"
publish = false

[dependencies]
atoi = "2"
bytes = "1"
anyhow = "1"
tokio = { version = "1", features = ["net", "io-util", "rt", "rt-multi-thread", "macros"] }
