[package]
name = "shader_loader"
version = "0.1.0"
edition = "2021"
publish = false

[dependencies]
regex = "1"
gl = "0.14"
