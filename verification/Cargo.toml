[package]
name = "sine_art"
version = "0.1.0"
edition = "2021"

[dependencies]
image = "*"
