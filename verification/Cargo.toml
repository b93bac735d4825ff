[package]
name = "qdd_rs"
version = "0.1.0"
edition = "2021"
publish = false

[dependencies]
num = "0.4"
num-rational = "0.4"
num-traits = "0.2"
rand = "0.9"
