[package]
name = "cgb-kdf"
version = "0.1.0"
edition = "2021"
publish = false

[dependencies]
regex = "1"
walkdir = "2"
serde = { version = "1", features = ["derive"] }
serde_json = "1"
rand = { version = "0.8", features = ["small_rng"] }
rand_chacha = "0.3"
nalgebra = "0.33"
rayon = "1"
