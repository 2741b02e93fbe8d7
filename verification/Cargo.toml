[package]
name = "perml"
version = "0.1.0"
edition = "2021"
publish = false

[dependencies]
parity-codec = "3"
