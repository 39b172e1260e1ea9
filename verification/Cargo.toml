[package]
name = "ferium"
version = "0.1.0"
edition = "2021"
publish = false

[dependencies]
anyhow = "*"
colored = "*"
ferinth = "=2.13.1"
futures = "*"
indicatif = "*"
tokio = { version = "*", features = ["sync", "rt-multi-thread", "macros"] }
reqwest = "*"
zip = { version = "=8.6.0", default-features = false }
