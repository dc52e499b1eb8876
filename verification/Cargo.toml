[package]
name = "space_game"
version = "0.1.0"
edition = "2021"
publish = false

[dependencies]
image = { version = "0.24", default-features = false, features = ["png"] }
winit = { version = "0.28", default-features = false, features = ["x11"] }
rodio = { version = "0.17", default-features = false, features = ["wav"] }
