[package]
name = "bcs"
version = "0.1.4"
edition = "2021"
publish = false

[dependencies]
serde = "1"
