[package]
name = "fri_binius"
version = "0.1.0"
edition = "2021"
publish = false

[dependencies]
anyhow = "1"
binius-field = "*"
binius-ntt = "*"
binius-utils = "*"
rand = "0.8"
sha3 = "0.10"
