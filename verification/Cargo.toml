[package]
name = "grid_puzzles"
version = "0.1.0"
edition = "2021"
publish = false

[dependencies]
clap = { version = "4", features = ["derive"] }
env_logger = "*"
fancy-regex = "*"
log = "0.4"
md5 = "*"
nalgebra = "*"
regex = "1"
