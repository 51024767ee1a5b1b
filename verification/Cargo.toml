[package]
name = "checkers"
version = "0.1.0"
edition = "2021"
publish = false

[dependencies]
rayon = "1"
thiserror = "1"
image = { version = "0.24", default-features = false, features = ["png"] }
macroquad = "0.4"
