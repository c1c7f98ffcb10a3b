[package]
name = "deepng"
version = "0.1.0"
edition = "2021"
publish = false

[dependencies]
crc = "3"
crc32fast = "1"
clap = "4"
