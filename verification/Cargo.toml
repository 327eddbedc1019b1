[package]
name = "cryptosystems"
version = "0.1.0"
edition = "2021"
publish = false

[dependencies]
num-bigint = "0.4"
num-traits = "0.2"
rand = "0.8"
rust-crypto = "0.2"
hex = "0.4"
clap = { version = "4", features = ["derive"] }
