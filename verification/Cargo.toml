[package]
name = "shoulders_of_giants"
version = "0.1.0"
edition = "2021"
publish = false

[dependencies]
itertools = "*"
rand = "*"
csv = "*"
