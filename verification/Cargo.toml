[package]
name = "resp_codec"
version = "0.1.0"
edition = "2021"

[dependencies]
bytes = "1"
tokio-util = { version = "0.7", features = ["codec"] }
