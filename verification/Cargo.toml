[package]
name = "inkline"
version = "0.1.0"
edition = "2021"
publish = false

[dependencies]
serde = { version = "1", features = ["derive"] }
bincode = "1"
flate2 = "1"
rstar = "*"
lyon = "*"
freedraw = "*"
bytemuck = { version = "1", features = ["derive"] }
image = { version = "*", default-features = false, features = ["png", "jpeg"] }
env_logger = "*"
egui = "*"
egui-wgpu = "*"
eframe = { version = "*", default-features = false, features = ["wgpu", "default_fonts", "x11", "wayland"] }
wgpu = "*"
