[package]
name = "radcad"
version = "0.1.0"
edition = "2021"
publish = false

[dependencies]
log = "0.4"
pyo3 = "*"
pyo3-log = "*"
