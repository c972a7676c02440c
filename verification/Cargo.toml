[package]
name = "rubikscube"
version = "0.1.0"
edition = "2021"
publish = false

[dependencies]
rand = "0.8"
rayon = "1"
once_cell = "1"
num-format = "0.4"

[dev-dependencies]
itertools = "0.12"
