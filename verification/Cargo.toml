[package]
name = "sepconv"
version = "0.1.0"
edition = "2021"

[dependencies]
image = { version = "*", default-features = false }
ndarray = { version = "*", default-features = false, features = ["std"] }
