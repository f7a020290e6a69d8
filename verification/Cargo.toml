[package]
name = "cpd"
version = "0.1.0"
edition = "2021"
publish = false

[dependencies]
anyhow = "1"
gltf = "1"
nalgebra = "0.33"
rayon = "1"
