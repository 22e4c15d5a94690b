[package]
name = "mvcc"
version = "0.1.0"
edition = "2021"
publish = false

[dependencies]
sorted-vec = "0.8"
