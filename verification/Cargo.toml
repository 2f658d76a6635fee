[package]
name = "elderforge"
version = "0.1.0"
edition = "2021"
publish = false

[dependencies]
bytemuck = { version = "=1.25.2", features = ["derive"] }
egui-wgpu = "=0.29.1"
glam = { version = "=0.29.3", features = ["serde"] }
log = "=0.4.35"
pollster = "=0.3.0"
raw-window-handle = "=0.6.2"
serde = { version = "=1.0.229", features = ["derive"] }
thiserror = "=1.0.69"
wgpu = "=22.1.0"
winit = "=0.30.13"
