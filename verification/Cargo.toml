[package]
name = "handoff_gcm"
version = "0.1.0"
edition = "2021"
publish = false

[dependencies]
aes = "0.8"
ghash = "0.5"

[dev-dependencies]
hex = "0.4"
