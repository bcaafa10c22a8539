[package]
name = "memorytracking"
version = "0.1.0"
edition = "2021"
publish = false

[dependencies]
ahash = "0.8"
im = "15"
inferno = { version = "0.11", default-features = false, features = ["nameattr"] }
itertools = "0.10"
