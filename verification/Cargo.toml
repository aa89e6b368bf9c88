[package]
name = "fnew"
version = "1.0.0"
edition = "2021"
publish = false

[dependencies]
unicode-segmentation = "1"
clap = "4"
