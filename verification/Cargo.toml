[package]
name = "rudis"
version = "0.1.0"
edition = "2021"
publish = false

[dependencies]
itoa = "1"
anyhow = "1"
tracing = "0.1"
tokio = { version = "1", features = ["io-util", "macros", "net", "rt-multi-thread"] }
