[package]
name = "curved"
version = "0.1.0"
edition = "2021"
publish = false

[dependencies]
ndarray = "*"
numpy = "*"
pyo3 = "*"
