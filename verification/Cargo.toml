[package]
name = "polyline"
version = "0.1.0"
edition = "2021"

[dependencies]
cgmath = "0.18"
rayon = "1"
sha2 = "0.10"
spin = "0.9"
