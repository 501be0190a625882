[package]
name = "r2deob"
version = "0.1.0"
edition = "2021"
publish = false

[dependencies]
r2pipe = "*"
rand = "*"
packed_simd = "*"
