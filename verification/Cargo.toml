[package]
name = "reedline"
version = "0.1.0"
edition = "2021"
publish = false

[dependencies]
fd-lock = "4"
