[package]
name = "gravity_scene"
version = "0.1.0"
edition = "2021"
publish = false

[dependencies]
rand = "=0.9.5"
fontdue = "0.9"
bytemuck = { version = "1", features = ["derive"] }
