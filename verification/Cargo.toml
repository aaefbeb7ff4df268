[package]
name = "binomtest"
version = "0.1.0"
edition = "2021"
publish = false

[dependencies]
statrs = "*"
arbitrary = { version = "1", features = ["derive"] }
libfuzzer-sys = "*"
pyo3 = { version = "*", features = ["auto-initialize"] }
