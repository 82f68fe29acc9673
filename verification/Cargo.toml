[package]
name = "circuit_data"
version = "0.1.0"
edition = "2021"
publish = false

[dependencies]
hashbrown = "0.14"
pyo3 = { version = "0.21", features = ["extension-module", "abi3-py38"] }
rustworkx-core = "0.14"
