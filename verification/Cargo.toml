[package]
name = "oxide"
version = "0.1.0"
edition = "2021"
publish = false

[dependencies]
ignore = "0.4"
rayon = "1"
tracing = "0.1"
