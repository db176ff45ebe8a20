[package]
name = "gps_data_codec"
version = "0.1.0"
edition = "2021"
publish = false

[dependencies]
pyo3 = "*"
