[package]
name = "rh2"
version = "0.1.0"
edition = "2021"
publish = false

[dependencies]
bytes = "1"
h2 = "0.4"
http = "1"
tokio = { version = "1", default-features = false, features = ["io-util"] }
pyo3 = { version = "0.22", features = ["extension-module", "abi3-py38"] }
