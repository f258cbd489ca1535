[package]
name = "rtree"
version = "0.1.0"
edition = "2021"
publish = false

[dependencies]
ordered-float = "*"
num-traits = "0.2"
svg = "*"

[dev-dependencies]
ordered-float = "*"
num-traits = "0.2"
rand = "0.8"
