[package]
name = "lay-simulator-gk"
version = "0.1.0"
edition = "2021"
publish = false

[dependencies]
lay = "*"
rand_core = "0.5"
rand_xorshift = "0.2"
