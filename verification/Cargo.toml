[package]
name = "jelly_cursor"
version = "0.1.0"
edition = "2021"
publish = false

[dependencies]
smithay = { version = "0.7", default-features = false, features = ["renderer_gl"] }
