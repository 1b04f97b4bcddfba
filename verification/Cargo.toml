[package]
name = "sparse"
version = "0.1.0"
edition = "2021"
publish = false

[dependencies]
sparseset = "*"
csv = "*"
serde = { version = "1", features = ["derive"] }
rayon = "*"
indicatif = "*"
