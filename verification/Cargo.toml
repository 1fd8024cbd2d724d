[package]
name = "readme_update"
version = "0.1.0"
edition = "2021"
publish = false

[dependencies]
walkdir = "2"
