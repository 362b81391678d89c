[package]
name = "fractalical"
version = "0.1.0"
edition = "2021"
publish = false

[dependencies]
rand = "*"
pixels = "*"
winit = "*"
winit_input_helper = "*"
env_logger = "*"
log = "*"
