[package]
name = "fast_copy"
version = "0.1.0"
edition = "2021"
publish = false

[dependencies]
rayon = "1.10"
walkdir = "2.5"
crossbeam-channel = "0.5"
libc = "0.2"
