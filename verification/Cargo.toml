[package]
name = "bevmnist"
version = "0.1.0"
edition = "2021"
publish = false

[dependencies]
tract-onnx = "*"
anyhow = "*"
