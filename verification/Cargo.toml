[package]
name = "gstools_core"
version = "1.2.0"
edition = "2021"
publish = false

[dependencies]
ndarray = "=0.17.2"
numpy = "=0.30.0"
pyo3 = { version = "=0.30.1", features = ["abi3-py310", "extension-module"] }
rayon = "=1.12.0"
