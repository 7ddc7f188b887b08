[package]
name = "texture_graph"
version = "0.1.0"
edition = "2021"
publish = false

[dependencies]
bytemuck = { version = "=1.25.2", features = ["derive"] }
glam = "=0.30.10"
log = "=0.4.35"
palette = { version = "=0.7.7", features = ["serializing"] }
pollster = "=0.4.0"
ron = "=0.8.1"
serde = { version = "=1.0.229", features = ["derive"] }
thiserror = "=1.0.69"
wgpu = "=29.0.4"
