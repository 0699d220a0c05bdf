[package]
name = "annealing"
version = "0.1.0"
edition = "2021"
publish = false

[dependencies]
rand = "*"
rayon = "*"
image = "*"
clap = { version = "*", features = ["derive"] }
