[package]
name = "device_memory"
version = "0.1.0"
edition = "2021"
publish = false

[dependencies]
ash = "0.37"
ash-window = "0.11"
winit = "0.27"
nalgebra-glm = "0.18"
num = "0.4"
