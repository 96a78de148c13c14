[package]
name = "wizpatch"
version = "0.1.0"
edition = "2021"
publish = false

[dependencies]
crc32fast = "1"
smol = "2"
async-channel = "2"
async-net = "2"
ureq = "2"
