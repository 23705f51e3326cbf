[package]
name = "blocked-vec"
version = "0.1.0"
edition = "2021"
publish = false

[dependencies]
page_size = "0.6"
