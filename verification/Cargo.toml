[package]
name = "wsframe"
version = "0.1.0"
edition = "2021"
publish = false

[dependencies]
async-std = "*"
futures = "*"
tokio = { version = "*", features = ["rt", "rt-multi-thread"] }
