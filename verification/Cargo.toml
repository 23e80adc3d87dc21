[package]
name = "hptp"
version = "0.1.0"
edition = "2021"
publish = false

[dependencies]
hickory-resolver = "*"
tokio = { version = "*", features = ["full"] }
tracing = "*"
tracing-subscriber = "*"

[dev-dependencies]
itertools = "*"
