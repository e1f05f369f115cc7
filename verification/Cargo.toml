[package]
name = "ass_overlay"
version = "0.1.0"
edition = "2021"
publish = false

[dependencies]
subparse = "=0.7.0"
libass = "=0.1.3"
