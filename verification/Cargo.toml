[package]
name = "min_max"
version = "0.1.0"
edition = "2021"
publish = false

[dependencies]
magnus = "0.6"
min-max-heap = "1.3"
