[package]
name = "cs_flythrough"
version = "0.1.0"
edition = "2021"
publish = false

[dependencies]
anyhow = "1"
bytemuck = { version = "1", features = ["derive"] }
glam = "*"
goldsrc-rs = "*"
guillotiere = "*"
image = { version = "*", default-features = false, features = ["png"] }
pollster = "*"
qbsp = "*"
serde = { version = "1", features = ["derive"] }
toml = "*"
wgpu = "*"
winit = "*"
