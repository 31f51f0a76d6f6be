[package]
name = "hydrocode"
version = "0.1.0"
edition = "2021"
publish = false

[dependencies]
bytemuck = { version = "1", features = ["derive"] }
wgpu = "25"
winit = "0.30"
cgmath = "0.18"
pollster = "0.4"
futures = "0.3"
csv = "1"
serde = { version = "1", features = ["derive"] }
env_logger = "0.11"
instant = "0.1"
rand = "0.9"
