[package]
name = "voxel_world"
version = "0.1.0"
edition = "2021"
publish = false

[dependencies]
font8x8 = "=0.3.1"
glam = "=0.30.10"
minifb = "=0.29.0"
sdl2 = { version = "=0.38.0", features = ["unsafe_textures"] }
