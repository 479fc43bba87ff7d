[package]
name = "sevenz_archive"
version = "0.1.0"
edition = "2021"
publish = false

[dependencies]
crc32fast = "*"
futures = "*"
futures-lite = "*"
async-io = "*"
async-fs = "*"
