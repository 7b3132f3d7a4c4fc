[package]
name = "ron_batch"
version = "0.1.0"
edition = "2021"
publish = false

[dependencies]
ron-uuid = "*"
