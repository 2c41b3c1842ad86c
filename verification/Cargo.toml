[package]
name = "para_router"
version = "0.1.0"
edition = "2021"
publish = false

[dependencies]
parity-scale-codec = "*"
sp-core = "*"
sp-runtime = "*"
sp-std = "*"
frame-support = "*"
frame-system = "*"
