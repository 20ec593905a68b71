[package]
name = "fidget_kernels"
version = "0.1.0"
edition = "2021"
publish = false

[dependencies]
fidget-bytecode = "*"
fidget-core = "*"
fidget-raster = "*"
nalgebra = "*"
pollster = "*"
thiserror = "*"

[dev-dependencies]
naga = { version = "*", features = ["wgsl-in"] }
