[package]
name = "revel"
version = "0.1.0"
edition = "2021"

[dev-dependencies]
crc = "3"
