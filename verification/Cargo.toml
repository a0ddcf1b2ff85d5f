[package]
name = "hybrid_vector_search"
version = "0.1.0"
edition = "2021"
publish = false

[dependencies]
bytemuck = "*"
rayon = "*"
ngt = "*"
