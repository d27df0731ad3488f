[package]
name = "raytracer"
version = "0.1.0"
edition = "2021"
publish = false

[dependencies]
rand = "0.8"
font8x8 = "0.3"
num-format = "0.4"
glam = "0.24"
nalgebra = "0.32"
image = "0.24"
rayon = "1"
crossbeam-channel = "0.5"
uuid = { version = "1", features = ["v4"] }
log = "0.4"
pixels = "0.13"
winit = "0.28"
winit_input_helper = "0.14"
