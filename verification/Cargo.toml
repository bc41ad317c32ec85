[package]
name = "stitch_core"
version = "0.1.0"
edition = "2021"
publish = false

[dependencies]
clap = { version = "3", features = ["derive"] }
pyo3 = { version = "0.16", features = ["extension-module"] }
serde_json = "1"
