[package]
name = "ferrum_ai"
version = "0.1.0"
edition = "2021"
publish = false

[dependencies]
rust-stemmers = "1"
rand = "0.8"
fastrand = "2"
