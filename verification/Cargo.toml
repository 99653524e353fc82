[package]
name = "frustracer"
version = "0.1.0"
edition = "2021"
publish = false

[dependencies]
glam = "*"
half = "*"
rayon = "*"
fastrand = "*"
