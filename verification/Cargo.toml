[package]
name = "sylva_core"
version = "0.1.0"
edition = "2021"
publish = false

[dependencies]
ndarray = "*"
rayon = "*"
serde = { version = "1", features = ["derive"] }
serde_json = "1"
thiserror = "*"
pyo3 = { version = "0.29.0", features = ["extension-module", "abi3-py310"] }
numpy = "0.29.0"
cudarc = { version = "0.19.8", default-features = false, features = ["std", "driver", "nvrtc", "cuda-12080", "dynamic-loading"] }
