[package]
name = "bencode_rs"
version = "0.1.0"
edition = "2021"
publish = false

[dependencies]
bytes = "1"
pyo3 = "*"
smallvec = "1"
