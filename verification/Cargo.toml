[package]
name = "tern"
version = "0.1.0"
edition = "2021"
publish = false

[dependencies]
itertools = "*"
num-integer = "*"
num-traits = "*"
nalgebra = "*"
serde = { version = "1", features = ["derive"] }
