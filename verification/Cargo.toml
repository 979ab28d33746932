[package]
name = "gbfr_build_calculator"
version = "0.1.0"
edition = "2021"
publish = false

[dependencies]
itertools = "*"
nom = "7"
rand = "*"
