[package]
name = "minitorrent"
version = "0.1.0"
edition = "2021"
publish = false

[dependencies]
bit-vec = "0.6"
tokio = { version = "1", features = ["rt-multi-thread", "macros", "net", "io-util", "sync", "time", "fs"] }
