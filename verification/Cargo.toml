[package]
name = "image_worker"
version = "0.1.0"
edition = "2021"
publish = false

[dependencies]
lz4_flex = "*"
miniz_oxide = "*"
rayon = "*"
ruzstd = "*"
