[package]
name = "terp"
version = "0.1.0"
edition = "2021"
publish = false

[dependencies]
byteset = "*"
thiserror = "*"
