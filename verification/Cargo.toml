[package]
name = "fast_routing_table"
version = "0.1.0"
edition = "2021"
publish = false

[dependencies]
pyo3 = "0.25"
rustc-hash = "2"
uuid = "1"
