[package]
name = "sbpl"
version = "0.1.0"
edition = "2021"
publish = false

[dependencies]
argmin = "*"
argmin-math = "*"
rand = { version = "0.9", features = ["small_rng"] }
serde = { version = "1", features = ["derive"] }
