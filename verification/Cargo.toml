[package]
name = "toml_reorder"
version = "0.1.0"
edition = "2021"
publish = false

[dependencies]
taplo = "*"
rowan = "0.15"
