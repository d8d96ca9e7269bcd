[package]
name = "octree"
version = "0.1.0"
edition = "2021"
publish = false

[dependencies]
cgmath = "0.17"
collision = "0.20"
genmesh = "*"
glium = "*"
image = { version = "*", default-features = false, features = ["bmp", "jpeg", "png", "tga"] }
obj = "*"
rand = "*"
time = "*"
