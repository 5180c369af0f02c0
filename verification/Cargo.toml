[package]
name = "glyph_atlas"
version = "0.1.0"
edition = "2021"
publish = false

[dependencies]
owned_ttf_parser = "=0.15.2"
rusttype = "=0.9.3"
glium = "=0.30.2"
winit = "=0.25.0"
image = "=0.23.14"
