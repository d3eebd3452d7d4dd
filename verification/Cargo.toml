[package]
name = "strength_reduce"
version = "0.1.0"
edition = "2021"
publish = false

[dependencies]
egg = { version = "=0.9.5", features = ["deterministic"] }
itertools = "=0.15.0"
