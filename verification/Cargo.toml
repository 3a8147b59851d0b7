[package]
name = "rxml"
version = "0.1.0"
edition = "2021"
publish = false

[dependencies]
quick-xml = "=0.37.5"
pyo3 = "=0.26.0"
