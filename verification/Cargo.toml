[package]
name = "pytarrs"
version = "0.1.0"
edition = "2021"
publish = false

[dependencies]
tar = { version = "0.4", default-features = false }
pyo3 = { version = "0.20", features = ["extension-module"] }
