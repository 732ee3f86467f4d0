[package]
name = "heven"
version = "0.1.0"
edition = "2021"
publish = false

[dependencies]
anyhow = "1"
bytemuck = { version = "1", features = ["derive"] }
cosmic-text = "*"
log = "0.4"
pollster = "*"
wgpu = "*"
winit = "*"
