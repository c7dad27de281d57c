[package]
name = "rfc822_like"
version = "0.1.0"
edition = "2021"
publish = false

[dependencies]
unicode-segmentation = "*"
serde = "*"
thiserror = "*"
fmt2io = "*"
