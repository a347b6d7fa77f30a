[package]
name = "digit_decompose"
version = "0.1.0"
edition = "2021"
publish = false

[dependencies]
tfhe = { version = "=0.8.7", features = ["x86_64-unix"] }
aligned-vec = "0.5"
concrete-fft = "0.5"
