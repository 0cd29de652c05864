[package]
name = "miniko_renderer"
version = "0.1.0"
edition = "2021"
publish = false

[dependencies]
image = { version = "0.25", default-features = false, features = ["png"] }
regex = "1"
intel_tex_2 = "*"
wgpu = "24"
raw-window-handle = "0.6"
rayon = "1.10"
resvg = "0.45"
usvg = "0.45"
tiny-skia = "0.11"
serde = { version = "1", features = ["derive"] }
serde_json = "1"
bytemuck = "1"
