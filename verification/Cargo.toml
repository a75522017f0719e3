[package]
name = "css_attack"
version = "0.1.0"
edition = "2021"
publish = false

[dependencies]
rand = "*"
