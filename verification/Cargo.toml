[package]
name = "micrograd"
version = "0.1.0"
edition = "2021"
publish = false

[dependencies]
daggy = "0.8"
num-traits = "0.2"
rand = "0.8"
