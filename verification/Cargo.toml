[package]
name = "slinky"
version = "0.1.0"
edition = "2021"
publish = false

[dependencies]
crc = "3"
indexmap = "2"
sha2 = "0.10"
tracing = "0.1"
