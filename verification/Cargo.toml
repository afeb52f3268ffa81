[package]
name = "voxel_plugin"
version = "0.1.0"
edition = "2021"
publish = false

[dependencies]
smallvec = "1"
glam = "*"
rayon = "1"
crossbeam-channel = "0.5"
web-time = "1"
