[package]
name = "bm25"
version = "0.1.0"
edition = "2021"
publish = false

[dependencies]
ahash = "0.8"
numpy = "0.22"
pyo3 = { version = "0.22", features = ["abi3-py38", "extension-module"] }
rayon = "1"
smallvec = "1"
string-interner = "0.17"
