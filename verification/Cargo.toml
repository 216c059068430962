[package]
name = "splitby"
version = "1.0.0"
edition = "2021"
publish = false

[dependencies]
regex = "*"
fancy-regex = "*"
unicode-segmentation = "*"
unicode-width = "*"
crossbeam = "*"
clap = { version = "*", features = ["derive"] }
