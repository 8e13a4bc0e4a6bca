[package]
name = "style_parallel"
version = "0.1.0"
edition = "2021"
publish = false

[dependencies]
arrayvec = "*"
smallvec = "*"
rayon = "*"
time = "*"
