[package]
name = "exact_rank_fusion"
version = "0.1.0"
edition = "2021"
publish = false

[dependencies]
ahash = "0.8"
itertools = "*"
ordered-float = "*"
fs-err = "*"
serde = { version = "1", features = ["derive"] }
serde_json = "1"
