[package]
name = "lopdf"
version = "0.1.0"
edition = "2021"
publish = false

[dependencies]
itoa = "1"
fontdb = "0.23"
ttf-parser = "0.25"
pyo3 = "0.23"

[dev-dependencies]
tempfile = "3"
