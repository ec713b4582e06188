[package]
name = "geckolib"
version = "0.1.0"
edition = "2021"
publish = false

[dependencies]
async-std = "1"
byteorder = "1"
eyre = "0.6"
human_bytes = "0.4"
