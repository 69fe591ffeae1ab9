[package]
name = "acorntorrent"
version = "0.1.0"
edition = "2021"
publish = false

[dependencies]
ring = "=0.17.14"
percent-encoding = "=2.3.2"
rand = "=0.8.8"
reqwest = { version = "=0.13.5", default-features = false, features = ["query"] }
tokio = { version = "1", features = ["rt"] }
chrono = "0.4"
num-bigint = "0.5"
num-traits = "0.2"
