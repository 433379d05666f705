[package]
name = "magic_bitboards"
version = "0.1.0"
edition = "2021"
publish = false

[dependencies]
lazy_static = "1"
rand = "0.8"
smallvec = "1"
