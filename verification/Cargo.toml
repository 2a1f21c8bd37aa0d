[package]
name = "wheelhoss"
version = "0.1.0"
edition = "2021"
publish = false

[dependencies]
fs3 = "0.5"
