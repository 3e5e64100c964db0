[package]
name = "leb128_codec"
version = "0.1.0"
edition = "2021"
publish = false

[dev-dependencies]
num-traits = "0.2"
