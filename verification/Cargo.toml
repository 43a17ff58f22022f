[package]
name = "gray_matter"
version = "0.1.0"
edition = "2021"
publish = false

[dependencies]
rand = "*"
vec1 = "*"
toml = "*"
