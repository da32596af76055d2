[package]
name = "rustyscope"
version = "0.1.0"
edition = "2021"
publish = false

[dependencies]
regex = "1"
ordered_hash_map = "*"
pyo3 = "0.23"
numpy = "0.23"
