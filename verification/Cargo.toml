[package]
name = "mini_chain"
version = "0.1.0"
edition = "2021"
publish = false

[dependencies]
rust-crypto = "0.2"
sled = "0.34"
clap = "4"
