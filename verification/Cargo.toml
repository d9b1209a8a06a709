[package]
name = "sorting_algorithm_visualizer_rs"
version = "0.1.0"
edition = "2021"
publish = false

[dependencies]
minifb = "*"
rodio = "*"
rand = "0.9"
