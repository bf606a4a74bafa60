[package]
name = "turbomap-core"
version = "0.1.0"
edition = "2021"
publish = false

[dependencies]
web-time = "=1.1.0"
thiserror = "=2.0.21"
glam = "0.30"
bytemuck = { version = "=1.25.2", features = ["derive"] }
wgpu = "=30.0.1"
log = "=0.4.35"
