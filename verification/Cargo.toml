[package]
name = "ransel"
version = "0.1.0"
edition = "2021"
publish = false

[dependencies]
bitintr = "0.3"
num-traits = "0.2"
