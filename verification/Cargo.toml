[package]
name = "native_manners"
version = "0.1.0"
edition = "2021"
publish = false

[dependencies]
neon = "*"
