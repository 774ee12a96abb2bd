[package]
name = "rbit"
version = "0.1.0"
edition = "2021"
publish = false

[dependencies]
rust-crypto = "0.2"
percent-encoding = "2"
reqwest = { version = "0.12", default-features = false, features = ["blocking"] }
