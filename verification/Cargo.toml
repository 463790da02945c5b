[package]
name = "pixlzr"
version = "0.1.0"
edition = "2021"
publish = false

[dependencies]
anyhow = "*"
clap = { version = "*", features = ["derive"] }
fast_image_resize = "*"
image = "*"
palette = "*"
qoi = "*"
