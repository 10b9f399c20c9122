[package]
name = "rangeset_int"
version = "0.1.0"
edition = "2021"
publish = false

[dependencies]
itertools = "*"
num-traits = "*"
