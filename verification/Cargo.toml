[package]
name = "deip"
version = "0.1.0"
edition = "2021"
publish = false

[dependencies]
parity-scale-codec = "=3.7.5"
sp-core = { version = "=43.0.0", default-features = false }
sp-crypto-hashing = "=0.1.0"
