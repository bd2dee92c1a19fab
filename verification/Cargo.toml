[package]
name = "m4againpy"
version = "0.1.0"
edition = "2021"
publish = false

[dependencies]
pyo3 = { version = "0.23", features = ["abi3-py39", "extension-module"] }
