[package]
name = "nd_renderer"
version = "0.1.0"
edition = "2021"
publish = false

[dependencies]
macroquad = { version = "=0.4.16", features = ["audio"] }
nalgebra = "=0.33.3"
