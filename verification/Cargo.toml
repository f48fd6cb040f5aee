[package]
name = "pdf_lib"
version = "0.1.0"
edition = "2021"
publish = false

[dependencies]
flate2 = "1"
pdf-lib-rs = "*"
png = "*"
pyo3 = { version = "*", features = ["abi3-py39", "extension-module"] }
