[package]
name = "ddelta"
version = "0.1.0"
edition = "2021"
publish = false

[dependencies]
anyhow = "1"
argh = "0.1"
byteorder = "1"
divsufsort = "2"
indicatif = "0.15"
zerocopy = "0.6"
