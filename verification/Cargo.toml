[package]
name = "sudoku_solver"
version = "0.1.0"
edition = "2021"
publish = false

[dependencies]
ndarray = "0.16"
clap = { version = "4", features = ["derive"] }
color-eyre = "0.6"
indicatif = { version = "0.17", features = ["rayon"] }
num_cpus = "1"
rayon = "1"
