[package]
name = "fedcompute"
version = "0.1.0"
edition = "2021"
publish = false

[dependencies]
ed25519-dalek = "1"
fnv = "1"
rand_core = { version = "0.5", features = ["getrandom"] }
crossbeam-channel = "0.5"
crossbeam-utils = "0.8"
