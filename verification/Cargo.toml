[package]
name = "textraster"
version = "0.1.0"
edition = "2021"
publish = false

[dependencies]
image = "0.24"
rusttype = "0.9"
