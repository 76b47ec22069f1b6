[package]
name = "wu_quantization"
version = "0.1.0"
edition = "2021"
publish = false

[dependencies]
fontdue = "=0.9.4"
gif = "=0.14.2"
