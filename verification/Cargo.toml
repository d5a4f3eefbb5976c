[package]
name = "ctxmerge"
version = "0.1.0"
edition = "2021"
publish = false

[dependencies]
tiktoken-rs = "*"
ignore = "*"
arboard = "*"
reedline = "*"
tokio = { version = "*", features = ["rt-multi-thread", "fs"] }
anyhow = "*"
log = "*"
env_logger = "*"
