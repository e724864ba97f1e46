[package]
name = "dirsize"
version = "0.1.0"
edition = "2021"
publish = false

[dependencies]
dirs = "5"
rayon = "1"
