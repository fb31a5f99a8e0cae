[package]
name = "tako"
version = "0.1.0"
edition = "2021"
publish = false

[dependencies]
slab = "=0.4.12"
rand = { version = "=0.8.8", features = ["small_rng"] }
