[package]
name = "nbody"
version = "0.1.0"
edition = "2021"
publish = false

[dependencies]
nalgebra = "*"
rayon = "1"
serde = { version = "1", features = ["derive"] }
serde_json = "1"
macroquad = "0.4"
miniquad = "0.4"
