[package]
name = "starkcore"
version = "0.1.0"
edition = "2021"
publish = false

[dependencies]
anyhow = "1"
itertools = "*"
plonky2 = "*"
plonky2_util = "*"
rayon = "1"
