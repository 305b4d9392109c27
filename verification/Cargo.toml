[package]
name = "quasar_render"
version = "0.1.0"
edition = "2021"
publish = false

[dependencies]
wgpu = "*"
glam = "*"
bytemuck = { version = "*", features = ["derive"] }
rayon = "*"
rand = "0.8"
serde = { version = "1", features = ["derive"] }
serde_json = "1"
log = "0.4"
