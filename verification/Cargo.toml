[package]
name = "wfc_overlap"
version = "0.1.0"
edition = "2021"
publish = false

[dependencies]
bit-vec = "0.6"
ndarray = "0.15"
png = "0.15"
rand = "0.4"
