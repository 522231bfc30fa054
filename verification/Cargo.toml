[package]
name = "alac"
version = "0.1.0"
edition = "2021"
publish = false

[dependencies]
caf = "*"
mp4parse = "*"
