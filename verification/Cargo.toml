[package]
name = "avx512-butterfly"
version = "0.1.0"
edition = "2021"
publish = false

[dependencies]
sha2 = "0.10"
p3-baby-bear = "0.1"
p3-field = "0.1"
p3-dft = "0.1"
p3-matrix = "0.1"
