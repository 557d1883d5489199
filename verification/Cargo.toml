[package]
name = "layered_kv"
version = "0.1.0"
edition = "2021"
publish = false

[dependencies]
sled = "*"
uuid = { version = "*", features = ["v4"] }
