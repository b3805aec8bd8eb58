[package]
name = "ggp"
version = "0.1.0"
edition = "2021"
publish = false

[dependencies]
gdl-parser = "*"
regex = "1"
