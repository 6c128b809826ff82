[package]
name = "tuie"
version = "0.1.0"
edition = "2021"
publish = false

[dependencies]
axis2d = "*"
nonmax = "*"
sign = "*"
unicode-segmentation = "*"
