[package]
name = "astor"
version = "0.3.0"
edition = "2021"
publish = false

[dependencies]
matchit = "0.8"
