[package]
name = "voxel_core"
version = "0.1.0"
edition = "2021"
publish = false

[dependencies]
noise = "0.8"
glam = "*"
gl = "0.14"
glfw = "*"
image = { version = "0.24", default-features = false, features = ["png"] }
bytemuck = "1"
