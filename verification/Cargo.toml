[package]
name = "infer_kernels"
version = "0.1.0"
edition = "2021"
publish = false

[dependencies]
anyhow = "=1.0.104"
ndarray = "=0.16.1"
rayon = "=1.12.0"
