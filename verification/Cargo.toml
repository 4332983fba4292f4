[package]
name = "chess"
version = "0.1.0"
edition = "2021"
publish = false

[dependencies]
array-init = "2"
chrono = "0.4"
rand = "0.8"
