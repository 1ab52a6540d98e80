[package]
name = "mesh_topology"
version = "0.1.0"
edition = "2021"
publish = false

[dependencies]
nalgebra = "=0.33.3"
del-geo = "=0.1.29"
num-traits = "=0.2.19"
