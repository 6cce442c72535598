[package]
name = "intcode"
version = "0.1.0"
edition = "2021"
publish = false

[dependencies]
num = "0.2"
permutohedron = "0.2"
