[package]
name = "galois_hash"
version = "0.1.0"
edition = "2021"
publish = false

[dev-dependencies]
ghash = "0.5"
hex = "0.4"
