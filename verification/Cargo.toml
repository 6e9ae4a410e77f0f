[package]
name = "zenpnm"
version = "0.1.0"
edition = "2021"
publish = false

[dependencies]
enough = "*"
imgref = "*"
rgb = "*"
thiserror = "*"
