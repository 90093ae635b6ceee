[package]
name = "ternary-rs"
version = "0.1.0"
edition = "2021"
publish = false

[dependencies]
bytemuck = { version = "1", features = ["derive"] }
pollster = "0.4"
rayon = "1"
tracing = "0.1"
wgpu = "24"
