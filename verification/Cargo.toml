[package]
name = "dominant_colors"
version = "0.1.0"
edition = "2021"
publish = false

[dependencies]
color-thief = "0.2"
image = "*"
