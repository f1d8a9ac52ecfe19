[package]
name = "signed_rlp"
version = "0.1.0"
edition = "2021"
publish = false

[dependencies]
alloy-rlp = "0.2"
