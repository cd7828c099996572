[package]
name = "pbzx"
version = "0.1.0"
edition = "2021"

[dependencies]
byteorder = "1"
rust-lzma = "*"
clap = "2.34"
