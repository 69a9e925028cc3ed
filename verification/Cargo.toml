[package]
name = "merkle_store"
version = "0.1.0"
edition = "2021"
publish = false

[dependencies]
rust-crypto = "0.2"
rand = "0.8"
rkyv = { version = "0.7", features = ["validation"] }
clap = { version = "4", features = ["derive"] }
