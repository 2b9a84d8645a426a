[package]
name = "pest_typed"
version = "0.1.0"
edition = "2021"
publish = false

[dependencies]
pest_meta = "2.7"
