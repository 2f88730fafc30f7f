[package]
name = "pin_core"
version = "0.1.0"
edition = "2021"
publish = false

[dependencies]
unicode-normalization = "=0.1.24"
unicode-segmentation = "=1.12.0"
unicode-case-mapping = "=1.0.0"
