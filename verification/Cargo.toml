[package]
name = "lemur"
version = "0.1.0"
edition = "2021"
publish = false

[dependencies]
rayon = "1"
sha3 = "0.10"
