[package]
name = "rust_parallel"
version = "0.1.0"
edition = "2021"
publish = false

[dependencies]
env_logger = "*"
futures = "0.3"
log = "0.4"
pest = "2"
pest_derive = "2"
tokio = { version = "1", features = ["io-util", "net", "process", "rt", "rt-multi-thread", "sync"] }
