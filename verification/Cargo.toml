[package]
name = "firework"
version = "0.1.0"
edition = "2021"
publish = false

[dependencies]
rand = "0.8"
minifb = "*"

[dev-dependencies]
palette = "*"
