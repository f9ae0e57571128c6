[package]
name = "parallel_code_splitter"
version = "0.1.0"
edition = "2021"
publish = false

[dependencies]
num-bigint = "0.4"
rayon = "1"
rustc-hash = "2"
tracing = "0.1"
