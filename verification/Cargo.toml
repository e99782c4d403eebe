[package]
name = "cuprux"
version = "0.1.0"
edition = "2021"
publish = false

[dependencies]
bitflags = "2"
spin = "0.9"
