[package]
name = "shader_compose"
version = "0.1.0"
edition = "2021"
publish = false

[dependencies]
anyhow = "*"
naga = { version = "*", features = ["wgsl-in", "glsl-in", "wgsl-out"] }
