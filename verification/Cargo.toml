[package]
name = "zumble_crypt"
version = "0.1.0"
edition = "2021"
publish = false

[dependencies]
aes = "0.8"
bytes = "1"
ring = "0.17"
lazy_static = "1.4"
prometheus = { version = "0.13", default-features = false }
tracing = "0.1"
