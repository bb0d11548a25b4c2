[package]
name = "roguelike_core"
version = "0.1.0"
edition = "2021"
publish = false

[dependencies]
noise = "*"
image = { version = "*", default-features = false, features = ["png"] }
