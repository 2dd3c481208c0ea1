[package]
name = "slsk_rs"
version = "0.1.0"
edition = "2021"
publish = false

[dependencies]
flate2 = "*"
md5 = "*"
tokio = { version = "*", features = ["rt-multi-thread", "net", "io-util", "sync", "time", "fs", "macros"] }
