[package]
name = "ycd-reader"
version = "0.2.0"
edition = "2021"
publish = false

[dependencies]
strum = "*"
strum_macros = "*"
