[package]
name = "boolmin"
version = "0.1.0"
edition = "2021"
publish = false

[dependencies]
quine-mc_cluskey = "0.2"
