[package]
name = "rust_doom"
version = "0.1.0"
edition = "2021"
publish = false

[dependencies]
idcontain = "=0.7.6"
cgmath = "=0.18.0"
num-traits = "=0.2.19"
vec_map = "=0.8.2"
rusttype = "0.9"
unicode-normalization = "0.1"
log = "0.4"
