[package]
name = "barbuilder"
version = "0.1.0"
edition = "2021"
publish = false

[dependencies]
chrono = "0.4"
anyhow = "1"
log = "0.4"
serde = { version = "1", features = ["derive"] }
cxx = "1"
pyo3 = { version = "*", features = ["chrono"] }
pyo3-stub-gen = "*"
