[package]
name = "wigame"
version = "0.1.0"
edition = "2021"
publish = false

[dependencies]
bit-set = "=0.11.1"
crossbeam-channel = "=0.5.17"
rand = "=0.10.3"
