[package]
name = "alloy_engine"
version = "0.1.0"
edition = "2021"
publish = false

[dependencies]
wgpu = "*"
winit = "0.30"
pixels = "*"
pollster = "*"
bytemuck = { version = "1", features = ["derive"] }
