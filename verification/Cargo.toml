[package]
name = "citygen"
version = "0.1.0"
edition = "2021"
publish = false

[dependencies]
lazy_static = "1"
nalgebra-glm = "*"
rand = "0.9"
raylib = "5"
rayon = "1"
rmp-serde = "1"
serde = { version = "1", features = ["derive"] }
