[package]
name = "ass_fonts"
version = "0.2.0"
edition = "2021"
publish = false

[dependencies]
unicode-normalization = "=0.1.26"
ttf-parser = "=0.25.1"
walkdir = "=2.5.0"
serde = { version = "=1.0.229", features = ["derive"] }
