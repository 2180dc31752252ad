[package]
name = "sage"
version = "0.1.0"
edition = "2021"
publish = false

[dependencies]
hashbrown = "0.15"
foldhash = "0.1"
petgraph = "0.7"
glam = { version = "0.29", features = ["bytemuck"] }
bytemuck = { version = "1", features = ["derive"] }
bitflags = "2"
wgpu = "24"
winit = "0.30"
pollster = "0.4"
cosmic-text = "0.12"
swash = "0.2"
etagere = "0.2"
lru = "0.12"
