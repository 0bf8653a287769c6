[package]
name = "crc"
version = "3.0.0"
edition = "2021"
publish = false

[dev-dependencies]
crc-catalog = "*"
