[package]
name = "vector_graphics"
version = "0.1.0"
edition = "2021"
publish = false

[dependencies]
skrifa = "*"
softbuffer = "0.4"
winit = "0.30"
