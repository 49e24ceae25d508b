[package]
name = "palette_optimizer"
version = "0.1.0"
edition = "2021"
publish = false

[dependencies]
rand = "0.8"
num-integer = "0.1"
fast-srgb8 = "1"
svg = "*"
