[package]
name = "fluxdb"
version = "0.1.0"
edition = "2021"
publish = false

[dependencies]
arc-swap = "1"
crc32fast = "1"
rustc-hash = "2"
tracing = "0.1"
crossbeam-utils = "0.8"
