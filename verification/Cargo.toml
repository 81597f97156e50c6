[package]
name = "toy_vo"
version = "0.1.0"
edition = "2021"
publish = false

[dependencies]
nalgebra = "=0.34.2"
tiny-solver = "=0.18.8"
camera-intrinsic-model = "=0.8.1"
patch-tracker = "=0.4.0"
sqpnp_simple = "=0.3.0"
image = { version = "=0.25.10", default-features = false }
anyhow = "=1.0.104"
serde = { version = "=1.0.229", features = ["derive"] }
log = "=0.4.35"
pyo3 = "=0.30.1"
numpy = "=0.30.0"
