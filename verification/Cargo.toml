[package]
name = "gh-yard"
version = "0.1.0"
edition = "2021"
publish = false

[dependencies]
libc = "0.2"
nucleo-matcher = "0.3"
ratatui = "0.29"
unicode-segmentation = "1"
unicode-width = "0.2"

[dev-dependencies]
tempfile = "3"
