[package]
name = "dandy"
version = "0.1.0"
edition = "2021"
publish = false

[dependencies]
thiserror = "1"
unicode-segmentation = "1"

[dev-dependencies]
regex = "1"
