[package]
name = "hexadventure"
version = "0.1.0"
edition = "2021"
publish = false

[dependencies]
num-rational = { version = "0.4", default-features = false }
rand = "0.8"
rand_xoshiro = "0.6"
