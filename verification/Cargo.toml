[package]
name = "rs_pderiv"
version = "0.1.0"
edition = "2021"
publish = false

[dependencies]
bitvec = "1"
intmap = "*"
