[package]
name = "spatial_index"
version = "0.1.0"
edition = "2021"
publish = false

[dependencies]
image = { version = "0.23", default-features = false, features = ["png"] }
itertools = "0.9"
rand = "0.7"
