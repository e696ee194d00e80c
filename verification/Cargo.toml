[package]
name = "code_trie"
version = "0.1.0"
edition = "2021"
publish = false

[dependencies]
async-std = { version = "1", features = ["attributes"] }
futures = "0.3"
lazy_static = "1"
regex = "1"
