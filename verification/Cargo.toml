[package]
name = "quadtree"
version = "0.1.0"
edition = "2021"
publish = false

[dependencies]
image = "*"
tempfile = "*"
wayland-client = "*"
wayland-protocols = { version = "*", features = ["client"] }
