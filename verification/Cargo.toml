[package]
name = "weighted_gss"
version = "0.3.0"
edition = "2021"
publish = false

[dependencies]
pyo3 = "*"

[dev-dependencies]
rand = "0.8"
