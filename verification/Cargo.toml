[package]
name = "easy_signed_distance_field"
version = "0.1.0"
edition = "2021"
publish = false

[dependencies]
ttf-parser = "*"
image = { version = "*", default-features = false, features = ["png"] }
